//! Joins and set operations on materialised relations.
use vstd::prelude::*;
use crate::asks::{Stop, StopV};
use crate::catalog::strings_view;
use crate::env::{fail, sql_fail, sql_stop, Env, EnvV};
use crate::eval::{
    cell, cell_at, ev, eval, rel_cols_view, resolve_col, resolved, EvalCtx, RelCol, RelColV,
};
use crate::ops::{key_of_row, row_key};
use crate::query::{rows_result, set_result, ResultSet, ResultV};
use crate::sql::{boxed_view, lemma_boxed, Expr, ExprV, JoinKind, SetOp};
use crate::text::{owned, same_chars};
use crate::value::{
    clone_row, row_view, rows_view, texts_view, truth, value_eq, RowV, Value, ValueV,
};

verus! {

/// Columns and rows.
pub struct Relation {
    pub cols: Vec<RelCol>,
    pub rows: Vec<Vec<Value>>,
}

pub struct RelationV {
    pub cols: Seq<RelColV>,
    pub rows: Seq<RowV>,
}

impl View for Relation {
    type V = RelationV;

    open spec fn view(&self) -> RelationV {
        RelationV { cols: rel_cols_view(self.cols@), rows: rows_view(self.rows@) }
    }
}

pub open spec fn relation_result(r: Result<Relation, Stop>) -> Result<RelationV, StopV> {
    match r {
        Ok(v) => Ok(v@),
        Err(s) => Err(s@),
    }
}

impl Clone for RelCol {
    fn clone(&self) -> (c: RelCol)
        ensures
            c@ == self@,
    {
        RelCol {
            table: crate::catalog::clone_opt_string(&self.table),
            name: self.name.clone(),
            ty: self.ty,
        }
    }
}

pub fn clone_rows(rows: &Vec<Vec<Value>>) -> (r: Vec<Vec<Value>>)
    ensures
        rows_view(r@) == rows_view(rows@),
{
    let mut out: Vec<Vec<Value>> = Vec::new();
    let mut i: usize = 0;
    while i < rows.len()
        invariant
            i <= rows.len(),
            out.len() == i,
            forall|k: int| 0 <= k < i ==> row_view((#[trigger] out@[k])@) == row_view(rows@[k]@),
        decreases rows.len() - i,
    {
        out.push(clone_row(&rows[i]));
        i += 1;
    }
    assert(rows_view(out@) =~= rows_view(rows@));
    out
}

// ---- duplicates ----------------------------------------------------------------------------------

pub open spec fn row_keys(rows: Seq<RowV>) -> Seq<Seq<char>> {
    Seq::new(rows.len(), |i: int| row_key(rows[i]))
}

/// Whether any row has a key.
pub open spec fn key_in(rows: Seq<RowV>, k: Seq<char>) -> bool {
    row_keys(rows).contains(k)
}

/// The rows from `i` on whose key is new, behind `acc`.
pub open spec fn distinct_rows_from(rows: Seq<RowV>, i: int, acc: Seq<RowV>) -> Seq<RowV>
    decreases rows.len() - i,
{
    if i < 0 || i >= rows.len() {
        acc
    } else if key_in(acc, row_key(rows[i])) {
        distinct_rows_from(rows, i + 1, acc)
    } else {
        distinct_rows_from(rows, i + 1, acc.push(rows[i]))
    }
}

/// The first row of each key.
pub open spec fn distinct_rows(rows: Seq<RowV>) -> Seq<RowV> {
    distinct_rows_from(rows, 0, Seq::empty())
}

/// The rows from `i` on whose key is new, and is among those of `other` just when
/// `within` says so, behind `acc`.
pub open spec fn selected_from(
    rows: Seq<RowV>,
    other: Seq<RowV>,
    within: bool,
    i: int,
    acc: Seq<RowV>,
) -> Seq<RowV>
    decreases rows.len() - i,
{
    if i < 0 || i >= rows.len() {
        acc
    } else if key_in(other, row_key(rows[i])) == within && !key_in(acc, row_key(rows[i])) {
        selected_from(rows, other, within, i + 1, acc.push(rows[i]))
    } else {
        selected_from(rows, other, within, i + 1, acc)
    }
}

/// How often a key occurs.
pub open spec fn key_count(keys: Seq<Seq<char>>, k: Seq<char>) -> nat
    decreases keys.len(),
{
    if keys.len() == 0 {
        0
    } else {
        let rest = key_count(keys.drop_last(), k);
        if keys.last() == k {
            rest + 1
        } else {
            rest
        }
    }
}

/// The rows from `i` on that an occurrence in `other` is left for (or, without
/// `within`, is not), behind `acc`: each occurrence there stands for one here.
pub open spec fn paired_from(
    rows: Seq<RowV>,
    other: Seq<RowV>,
    within: bool,
    i: int,
    acc: Seq<RowV>,
) -> Seq<RowV>
    decreases rows.len() - i,
{
    if i < 0 || i >= rows.len() {
        acc
    } else {
        let k = row_key(rows[i]);
        let left = key_count(row_keys(rows).take(i), k) < key_count(row_keys(other), k);
        if left == within {
            paired_from(rows, other, within, i + 1, acc.push(rows[i]))
        } else {
            paired_from(rows, other, within, i + 1, acc)
        }
    }
}

/// The rows of a set operation.
pub open spec fn set_rows(l: Seq<RowV>, r: Seq<RowV>, op: SetOp, all: bool) -> Seq<RowV> {
    match op {
        SetOp::Union => if all {
            l + r
        } else {
            distinct_rows(l + r)
        },
        SetOp::Intersect => if all {
            paired_from(l, r, true, 0, Seq::empty())
        } else {
            selected_from(l, r, true, 0, Seq::empty())
        },
        SetOp::Except => if all {
            paired_from(l, r, false, 0, Seq::empty())
        } else {
            selected_from(l, r, false, 0, Seq::empty())
        },
    }
}

/// A set operation on two results; the left one gives the columns.
pub open spec fn combined(l: ResultV, r: ResultV, op: SetOp, all: bool) -> Result<ResultV, StopV> {
    if l.columns.len() != r.columns.len() {
        Err(sql_fail("each set-operation query must return the same number of columns"@))
    } else {
        Ok(
            ResultV {
                columns: l.columns,
                types: l.types,
                rows: set_rows(l.rows, r.rows, op, all),
            },
        )
    }
}

fn keys_of(rows: &Vec<Vec<Value>>) -> (r: Vec<Vec<char>>)
    ensures
        texts_view(r@) == row_keys(rows_view(rows@)),
{
    let ghost rv = rows_view(rows@);
    let mut out: Vec<Vec<char>> = Vec::new();
    let mut i: usize = 0;
    while i < rows.len()
        invariant
            i <= rows.len(),
            rv == rows_view(rows@),
            out.len() == i,
            forall|k: int| 0 <= k < i ==> (#[trigger] out@[k])@ == row_key(rv[k]),
        decreases rows.len() - i,
    {
        assert(rv[i as int] == row_view(rows@[i as int]@));
        out.push(key_of_row(&rows[i]));
        i += 1;
    }
    assert(texts_view(out@) =~= row_keys(rv));
    out
}

fn contains_key(keys: &Vec<Vec<char>>, k: &Vec<char>) -> (r: bool)
    ensures
        r == texts_view(keys@).contains(k@),
{
    let ghost kv = texts_view(keys@);
    let mut i: usize = 0;
    while i < keys.len()
        invariant
            i <= keys.len(),
            kv == texts_view(keys@),
            forall|j: int| 0 <= j < i ==> kv[j] != k@,
        decreases keys.len() - i,
    {
        assert(kv[i as int] == keys@[i as int]@);
        if same_chars(&keys[i], k) {
            assert(kv.contains(k@));
            return true;
        }
        i += 1;
    }
    false
}

fn count_key(keys: &Vec<Vec<char>>, upto: usize, k: &Vec<char>) -> (r: usize)
    requires
        upto <= keys.len(),
    ensures
        r == key_count(texts_view(keys@).take(upto as int), k@),
        r <= upto,
{
    let ghost kv = texts_view(keys@);
    let mut n: usize = 0;
    let mut i: usize = 0;
    assert(kv.take(0) =~= Seq::<Seq<char>>::empty());
    while i < upto
        invariant
            i <= upto <= keys.len(),
            kv == texts_view(keys@),
            n <= i,
            n == key_count(kv.take(i as int), k@),
        decreases upto - i,
    {
        assert(kv[i as int] == keys@[i as int]@);
        assert(kv.take(i + 1).drop_last() =~= kv.take(i as int));
        assert(kv.take(i + 1).last() == kv[i as int]);
        if same_chars(&keys[i], k) {
            n += 1;
        }
        i += 1;
    }
    n
}

/// Keep the first row of each key.
pub fn dedup_rows(rows: &Vec<Vec<Value>>) -> (r: Vec<Vec<Value>>)
    ensures
        rows_view(r@) == distinct_rows(rows_view(rows@)),
{
    let ghost rv = rows_view(rows@);
    let mut out: Vec<Vec<Value>> = Vec::new();
    let mut seen: Vec<Vec<char>> = Vec::new();
    assert(rows_view(out@) =~= Seq::<RowV>::empty());
    assert(texts_view(seen@) =~= row_keys(rows_view(out@)));
    let mut i: usize = 0;
    while i < rows.len()
        invariant
            i <= rows.len(),
            rv == rows_view(rows@),
            texts_view(seen@) == row_keys(rows_view(out@)),
            distinct_rows_from(rv, i as int, rows_view(out@)) == distinct_rows(rv),
        decreases rows.len() - i,
    {
        assert(rv[i as int] == row_view(rows@[i as int]@));
        let k = key_of_row(&rows[i]);
        if !contains_key(&seen, &k) {
            let ghost before = rows_view(out@);
            let ghost sv = texts_view(seen@);
            let ghost kk = k@;
            out.push(clone_row(&rows[i]));
            seen.push(k);
            assert(rows_view(out@) =~= before.push(rv[i as int]));
            assert(texts_view(seen@) =~= sv.push(kk));
            assert(row_keys(rows_view(out@)) =~= sv.push(kk));
        }
        i += 1;
    }
    out
}

fn select_rows(rows: &Vec<Vec<Value>>, other: &Vec<Vec<Value>>, within: bool) -> (r: Vec<
    Vec<Value>,
>)
    ensures
        rows_view(r@) == selected_from(
            rows_view(rows@),
            rows_view(other@),
            within,
            0,
            Seq::empty(),
        ),
{
    let ghost rv = rows_view(rows@);
    let ghost ov = rows_view(other@);
    let others = keys_of(other);
    let mut out: Vec<Vec<Value>> = Vec::new();
    let mut seen: Vec<Vec<char>> = Vec::new();
    assert(rows_view(out@) =~= Seq::<RowV>::empty());
    assert(texts_view(seen@) =~= row_keys(rows_view(out@)));
    let mut i: usize = 0;
    while i < rows.len()
        invariant
            i <= rows.len(),
            rv == rows_view(rows@),
            texts_view(others@) == row_keys(ov),
            texts_view(seen@) == row_keys(rows_view(out@)),
            selected_from(rv, ov, within, i as int, rows_view(out@)) == selected_from(
                rv,
                ov,
                within,
                0,
                Seq::empty(),
            ),
        decreases rows.len() - i,
    {
        assert(rv[i as int] == row_view(rows@[i as int]@));
        let k = key_of_row(&rows[i]);
        if contains_key(&others, &k) == within && !contains_key(&seen, &k) {
            let ghost before = rows_view(out@);
            let ghost sv = texts_view(seen@);
            let ghost kk = k@;
            out.push(clone_row(&rows[i]));
            seen.push(k);
            assert(rows_view(out@) =~= before.push(rv[i as int]));
            assert(texts_view(seen@) =~= sv.push(kk));
            assert(row_keys(rows_view(out@)) =~= sv.push(kk));
        }
        i += 1;
    }
    out
}

fn pair_rows(rows: &Vec<Vec<Value>>, other: &Vec<Vec<Value>>, within: bool) -> (r: Vec<Vec<Value>>)
    ensures
        rows_view(r@) == paired_from(
            rows_view(rows@),
            rows_view(other@),
            within,
            0,
            Seq::empty(),
        ),
{
    let ghost rv = rows_view(rows@);
    let ghost ov = rows_view(other@);
    let mine = keys_of(rows);
    assert(texts_view(mine@).len() == mine.len());
    let others = keys_of(other);
    let mut out: Vec<Vec<Value>> = Vec::new();
    assert(rows_view(out@) =~= Seq::<RowV>::empty());
    let mut i: usize = 0;
    while i < rows.len()
        invariant
            i <= rows.len(),
            rv == rows_view(rows@),
            mine.len() == rows.len(),
            texts_view(mine@) == row_keys(rv),
            texts_view(others@) == row_keys(ov),
            paired_from(rv, ov, within, i as int, rows_view(out@)) == paired_from(
                rv,
                ov,
                within,
                0,
                Seq::empty(),
            ),
        decreases rows.len() - i,
    {
        assert(rv[i as int] == row_view(rows@[i as int]@));
        assert(texts_view(mine@)[i as int] == mine@[i as int]@);
        assert(texts_view(others@).take(others.len() as int) =~= texts_view(others@));
        let before_here: usize = count_key(&mine, i, &mine[i]);
        let there: usize = count_key(&others, others.len(), &mine[i]);
        if (before_here < there) == within {
            let ghost before = rows_view(out@);
            out.push(clone_row(&rows[i]));
            assert(rows_view(out@) =~= before.push(rv[i as int]));
        }
        i += 1;
    }
    out
}

/// Combine two results by a set operation.
pub fn combine_set_op(lhs: ResultSet, rhs: ResultSet, op: SetOp, all: bool) -> (r: Result<
    ResultSet,
    Stop,
>)
    ensures
        set_result(r) == combined(lhs@, rhs@, op, all),
{
    if lhs.columns.len() != rhs.columns.len() {
        return Err(
            sql_stop(
                owned("each set-operation query must return the same number of columns"),
            ),
        );
    }
    let rows = match op {
        SetOp::Union => {
            let mut out = clone_rows(&lhs.rows);
            let mut rest = clone_rows(&rhs.rows);
            let ghost ov = rows_view(out@);
            let ghost tv = rows_view(rest@);
            out.append(&mut rest);
            assert(rows_view(out@) =~= ov + tv);
            if all {
                out
            } else {
                dedup_rows(&out)
            }
        },
        SetOp::Intersect => if all {
            pair_rows(&lhs.rows, &rhs.rows, true)
        } else {
            select_rows(&lhs.rows, &rhs.rows, true)
        },
        SetOp::Except => if all {
            pair_rows(&lhs.rows, &rhs.rows, false)
        } else {
            select_rows(&lhs.rows, &rhs.rows, false)
        },
    };
    Ok(ResultSet { columns: lhs.columns, types: lhs.types, rows })
}

/// No two rows share a key.
pub open spec fn keys_distinct(rows: Seq<RowV>) -> bool {
    forall|a: int, b: int|
        0 <= a < rows.len() && 0 <= b < rows.len() && row_key(#[trigger] rows[a]) == row_key(
            #[trigger] rows[b],
        ) ==> a == b
}

proof fn lemma_push_distinct(acc: Seq<RowV>, row: RowV)
    requires
        keys_distinct(acc),
        !key_in(acc, row_key(row)),
    ensures
        keys_distinct(acc.push(row)),
{
    let u = acc.push(row);
    assert forall|a: int, b: int|
        0 <= a < u.len() && 0 <= b < u.len() && row_key(#[trigger] u[a]) == row_key(
            #[trigger] u[b],
        ) implies a == b by {
        if a < acc.len() && b < acc.len() {
            assert(row_key(acc[a]) == row_key(acc[b]));
        } else if a < acc.len() {
            assert(row_keys(acc)[a] == row_key(row));
        } else if b < acc.len() {
            assert(row_keys(acc)[b] == row_key(row));
        }
    }
}

proof fn lemma_key_in_push(acc: Seq<RowV>, row: RowV, k: Seq<char>)
    ensures
        key_in(acc.push(row), k) == (key_in(acc, k) || row_key(row) == k),
{
    let u = row_keys(acc.push(row));
    assert(u =~= row_keys(acc).push(row_key(row)));
    if row_keys(acc).contains(k) {
        let i = choose|i: int| 0 <= i < row_keys(acc).len() && row_keys(acc)[i] == k;
        assert(u[i] == k);
    }
    if row_key(row) == k {
        assert(u[acc.len() as int] == k);
    }
    if u.contains(k) {
        let i = choose|i: int| 0 <= i < u.len() && u[i] == k;
        if i < acc.len() {
            assert(row_keys(acc)[i] == k);
        }
    }
}

proof fn lemma_distinct_from(rows: Seq<RowV>, i: int, acc: Seq<RowV>, k: Seq<char>)
    requires
        0 <= i <= rows.len(),
        keys_distinct(acc),
    ensures
        keys_distinct(distinct_rows_from(rows, i, acc)),
        key_in(distinct_rows_from(rows, i, acc), k) == (key_in(acc, k) || key_in(rows.skip(i), k)),
    decreases rows.len() - i,
{
    if i < rows.len() {
        assert(rows.skip(i) =~= seq![rows[i]] + rows.skip(i + 1));
        lemma_key_in_concat(seq![rows[i]], rows.skip(i + 1), k);
        lemma_key_in_push(Seq::empty(), rows[i], k);
        assert(Seq::<RowV>::empty().push(rows[i]) =~= seq![rows[i]]);
        lemma_key_in_push(acc, rows[i], k);
        if key_in(acc, row_key(rows[i])) {
            lemma_distinct_from(rows, i + 1, acc, k);
        } else {
            lemma_push_distinct(acc, rows[i]);
            lemma_distinct_from(rows, i + 1, acc.push(rows[i]), k);
        }
    }
}

proof fn lemma_key_in_concat(a: Seq<RowV>, b: Seq<RowV>, k: Seq<char>)
    ensures
        key_in(a + b, k) == (key_in(a, k) || key_in(b, k)),
{
    let u = row_keys(a + b);
    assert(u =~= row_keys(a) + row_keys(b));
    if row_keys(a).contains(k) {
        let i = choose|i: int| 0 <= i < row_keys(a).len() && row_keys(a)[i] == k;
        assert(u[i] == k);
    }
    if row_keys(b).contains(k) {
        let i = choose|i: int| 0 <= i < row_keys(b).len() && row_keys(b)[i] == k;
        assert(u[a.len() + i] == k);
    }
    if u.contains(k) {
        let i = choose|i: int| 0 <= i < u.len() && u[i] == k;
        if i < a.len() {
            assert(row_keys(a)[i] == k);
        } else {
            assert(row_keys(b)[i - a.len()] == k);
        }
    }
}

/// `DISTINCT` keeps each value once and loses none.
pub proof fn law_distinct(rows: Seq<RowV>, k: Seq<char>)
    ensures
        keys_distinct(distinct_rows(rows)),
        key_in(distinct_rows(rows), k) == key_in(rows, k),
{
    lemma_distinct_from(rows, 0, Seq::empty(), k);
    assert(rows.skip(0) =~= rows);
}

proof fn lemma_selected(
    rows: Seq<RowV>,
    other: Seq<RowV>,
    within: bool,
    i: int,
    acc: Seq<RowV>,
    k: Seq<char>,
)
    requires
        0 <= i <= rows.len(),
        keys_distinct(acc),
    ensures
        keys_distinct(selected_from(rows, other, within, i, acc)),
        key_in(selected_from(rows, other, within, i, acc), k) == (key_in(acc, k) || (key_in(
            rows.skip(i),
            k,
        ) && key_in(other, k) == within)),
    decreases rows.len() - i,
{
    if i < rows.len() {
        assert(rows.skip(i) =~= seq![rows[i]] + rows.skip(i + 1));
        lemma_key_in_concat(seq![rows[i]], rows.skip(i + 1), k);
        lemma_key_in_push(Seq::empty(), rows[i], k);
        assert(Seq::<RowV>::empty().push(rows[i]) =~= seq![rows[i]]);
        lemma_key_in_push(acc, rows[i], k);
        if key_in(other, row_key(rows[i])) == within && !key_in(acc, row_key(rows[i])) {
            lemma_push_distinct(acc, rows[i]);
            lemma_selected(rows, other, within, i + 1, acc.push(rows[i]), k);
        } else {
            lemma_selected(rows, other, within, i + 1, acc, k);
        }
    }
}

/// The plain set operations are those of sets: each value once; in a union when it
/// is on either side, in an intersection when on both, in a difference when on the
/// left alone.
pub proof fn law_set_operations(l: Seq<RowV>, r: Seq<RowV>, k: Seq<char>)
    ensures
        keys_distinct(set_rows(l, r, SetOp::Union, false)),
        keys_distinct(set_rows(l, r, SetOp::Intersect, false)),
        keys_distinct(set_rows(l, r, SetOp::Except, false)),
        key_in(set_rows(l, r, SetOp::Union, false), k) == (key_in(l, k) || key_in(r, k)),
        key_in(set_rows(l, r, SetOp::Intersect, false), k) == (key_in(l, k) && key_in(r, k)),
        key_in(set_rows(l, r, SetOp::Except, false), k) == (key_in(l, k) && !key_in(r, k)),
{
    law_distinct(l + r, k);
    lemma_key_in_concat(l, r, k);
    lemma_selected(l, r, true, 0, Seq::empty(), k);
    lemma_selected(l, r, false, 0, Seq::empty(), k);
    assert(l.skip(0) =~= l);
}

proof fn lemma_count_push(keys: Seq<Seq<char>>, x: Seq<char>, k: Seq<char>)
    ensures
        key_count(keys.push(x), k) == key_count(keys, k) + (if x == k {
            1nat
        } else {
            0nat
        }),
{
    assert(keys.push(x).drop_last() =~= keys);
}

proof fn lemma_paired(
    rows: Seq<RowV>,
    other: Seq<RowV>,
    within: bool,
    i: int,
    acc: Seq<RowV>,
    k: Seq<char>,
)
    requires
        0 <= i <= rows.len(),
        ({
            let before = key_count(row_keys(rows).take(i), k);
            let there = key_count(row_keys(other), k);
            key_count(row_keys(acc), k) == (if within {
                if before < there {
                    before
                } else {
                    there
                }
            } else if before < there {
                0nat
            } else {
                (before - there) as nat
            })
        }),
    ensures
        ({
            let all = key_count(row_keys(rows), k);
            let there = key_count(row_keys(other), k);
            key_count(row_keys(paired_from(rows, other, within, i, acc)), k) == (if within {
                if all < there {
                    all
                } else {
                    there
                }
            } else if all < there {
                0nat
            } else {
                (all - there) as nat
            })
        }),
    decreases rows.len() - i,
{
    let keys = row_keys(rows);
    if i < rows.len() {
        assert(keys.take(i + 1) =~= keys.take(i).push(row_key(rows[i])));
        lemma_count_push(keys.take(i), row_key(rows[i]), k);
        assert(row_keys(acc.push(rows[i])) =~= row_keys(acc).push(row_key(rows[i])));
        lemma_count_push(row_keys(acc), row_key(rows[i]), k);
        let left = key_count(keys.take(i), row_key(rows[i])) < key_count(
            row_keys(other),
            row_key(rows[i]),
        );
        if left == within {
            lemma_paired(rows, other, within, i + 1, acc.push(rows[i]), k);
        } else {
            lemma_paired(rows, other, within, i + 1, acc, k);
        }
    } else {
        assert(keys.take(i) =~= keys);
    }
}

/// With `ALL` the set operations count: an intersection holds a value as often as
/// the side that holds it less, a difference as often as the left holds it more.
pub proof fn law_counted_operations(l: Seq<RowV>, r: Seq<RowV>, k: Seq<char>)
    ensures
        ({
            let a = key_count(row_keys(l), k);
            let b = key_count(row_keys(r), k);
            &&& key_count(row_keys(set_rows(l, r, SetOp::Intersect, true)), k) == (if a < b {
                a
            } else {
                b
            })
            &&& key_count(row_keys(set_rows(l, r, SetOp::Except, true)), k) == (if a < b {
                0nat
            } else {
                (a - b) as nat
            })
        }),
{
    assert(row_keys(l).take(0) =~= Seq::<Seq<char>>::empty());
    assert(row_keys(Seq::<RowV>::empty()) =~= Seq::<Seq<char>>::empty());
    lemma_paired(l, r, true, 0, Seq::empty(), k);
    lemma_paired(l, r, false, 0, Seq::empty(), k);
}


// ---- joins ---------------------------------------------------------------------------------------

/// What decides whether two rows join.
pub struct JoinV {
    pub cols: Seq<RelColV>,
    pub on: Option<ExprV>,
    pub pairs: Seq<(usize, usize)>,
}

/// The ordinal of a pair of rows.
pub open spec fn pair_tick(i: int, k: int, n: int) -> u64 {
    (i as u64).wrapping_mul(n as u64).wrapping_add(k as u64)
}

/// Whether the `USING` columns from `p` on are equal.
pub open spec fn pairs_equal(row: RowV, pairs: Seq<(usize, usize)>, p: int) -> bool
    decreases pairs.len() - p,
{
    if p < 0 || p >= pairs.len() {
        true
    } else {
        value_eq(cell(row, pairs[p].0 as int), cell(row, pairs[p].1 as int)) == Some(true)
            && pairs_equal(row, pairs, p + 1)
    }
}

/// Whether a combined row meets the join condition.
pub open spec fn joins(row: RowV, j: JoinV, tick: u64, env: EnvV) -> Result<bool, StopV> {
    if !pairs_equal(row, j.pairs, 0) {
        Ok(false)
    } else {
        match j.on {
            None => Ok(true),
            Some(e) => match ev(e, crate::eval::rel_ctx(row, j.cols, tick), env) {
                Ok(v) => Ok(truth(v) == Some(true)),
                Err(s) => Err(s),
            },
        }
    }
}

/// Two rows side by side; `swapped` puts the inner one first.
pub open spec fn side_by_side(outer: RowV, inner: RowV, swapped: bool) -> RowV {
    if swapped {
        inner + outer
    } else {
        outer + inner
    }
}

/// The joined rows of outer row `i` and so far whether it has met any.
pub struct MetV {
    pub rows: Seq<RowV>,
    pub any: bool,
}

/// Outer row `i` against the inner rows from `k` on.
pub open spec fn met_from(
    outer: RowV,
    i: int,
    inner: Seq<RowV>,
    j: JoinV,
    swapped: bool,
    env: EnvV,
    k: int,
    acc: MetV,
) -> Result<MetV, StopV>
    decreases inner.len() - k,
{
    if k < 0 || k >= inner.len() {
        Ok(acc)
    } else {
        let row = side_by_side(outer, inner[k], swapped);
        match joins(row, j, pair_tick(i, k, inner.len() as int), env) {
            Err(s) => Err(s),
            Ok(true) => met_from(
                outer,
                i,
                inner,
                j,
                swapped,
                env,
                k + 1,
                MetV { rows: acc.rows.push(row), any: true },
            ),
            Ok(false) => met_from(outer, i, inner, j, swapped, env, k + 1, acc),
        }
    }
}

/// The outer rows from `i` on joined with the inner ones, behind `acc`. An outer
/// row that meets none is padded, where there is a pad.
pub open spec fn nested_from(
    outer: Seq<RowV>,
    inner: Seq<RowV>,
    j: JoinV,
    swapped: bool,
    pad: Option<RowV>,
    env: EnvV,
    i: int,
    acc: Seq<RowV>,
) -> Result<Seq<RowV>, StopV>
    decreases outer.len() - i,
{
    if i < 0 || i >= outer.len() {
        Ok(acc)
    } else {
        match met_from(outer[i], i, inner, j, swapped, env, 0, MetV { rows: acc, any: false }) {
            Err(s) => Err(s),
            Ok(m) => nested_from(
                outer,
                inner,
                j,
                swapped,
                pad,
                env,
                i + 1,
                if m.any || pad is None {
                    m.rows
                } else {
                    m.rows.push(side_by_side(outer[i], pad->Some_0, swapped))
                },
            ),
        }
    }
}

/// Whether right row `k` meets any of the left rows below `upto`.
pub open spec fn met_by(l: Seq<RowV>, r: Seq<RowV>, j: JoinV, env: EnvV, k: int, upto: int) -> bool {
    exists|i: int|
        0 <= i < upto && joins(
            #[trigger] l[i] + r[k],
            j,
            pair_tick(i, k, r.len() as int),
            env,
        ) == Ok::<bool, StopV>(true)
}

/// The right rows from `k` on that no left row meets, padded, behind `acc`.
pub open spec fn unmet_from(
    l: Seq<RowV>,
    r: Seq<RowV>,
    j: JoinV,
    pad: RowV,
    env: EnvV,
    k: int,
    acc: Seq<RowV>,
) -> Seq<RowV>
    decreases r.len() - k,
{
    if k < 0 || k >= r.len() {
        acc
    } else if met_by(l, r, j, env, k, l.len() as int) {
        unmet_from(l, r, j, pad, env, k + 1, acc)
    } else {
        unmet_from(l, r, j, pad, env, k + 1, acc.push(pad + r[k]))
    }
}

pub open spec fn nulls(n: nat) -> RowV {
    Seq::new(n, |i: int| ValueV::Null)
}

/// The `USING` columns from `i` on, by their places, behind `acc`.
pub open spec fn using_from(
    l: Seq<RelColV>,
    r: Seq<RelColV>,
    using: Seq<Seq<char>>,
    i: int,
    acc: Seq<(usize, usize)>,
) -> Result<Seq<(usize, usize)>, StopV>
    decreases using.len() - i,
{
    if i < 0 || i >= using.len() {
        Ok(acc)
    } else {
        match resolved(l, None, using[i]) {
            Err(e) => Err(fail(e)),
            Ok(a) => match resolved(r, None, using[i]) {
                Err(e) => Err(fail(e)),
                Ok(b) => using_from(
                    l,
                    r,
                    using,
                    i + 1,
                    acc.push((a, (l.len() + b) as usize)),
                ),
            },
        }
    }
}

/// The join of two relations.
pub open spec fn joined(
    l: RelationV,
    r: RelationV,
    kind: JoinKind,
    on: Option<ExprV>,
    using: Seq<Seq<char>>,
    env: EnvV,
) -> Result<RelationV, StopV> {
    match using_from(l.cols, r.cols, using, 0, Seq::empty()) {
        Err(s) => Err(s),
        Ok(pairs) => {
            let j = JoinV { cols: l.cols + r.cols, on, pairs };
            let null_l = nulls(l.cols.len());
            let null_r = nulls(r.cols.len());
            let rows = match kind {
                JoinKind::Inner | JoinKind::Cross => nested_from(
                    l.rows,
                    r.rows,
                    j,
                    false,
                    None,
                    env,
                    0,
                    Seq::empty(),
                ),
                JoinKind::Left => nested_from(
                    l.rows,
                    r.rows,
                    j,
                    false,
                    Some(null_r),
                    env,
                    0,
                    Seq::empty(),
                ),
                JoinKind::Right => nested_from(
                    r.rows,
                    l.rows,
                    j,
                    true,
                    Some(null_l),
                    env,
                    0,
                    Seq::empty(),
                ),
                JoinKind::Full => match nested_from(
                    l.rows,
                    r.rows,
                    j,
                    false,
                    Some(null_r),
                    env,
                    0,
                    Seq::empty(),
                ) {
                    Err(s) => Err(s),
                    Ok(out) => Ok(unmet_from(l.rows, r.rows, j, null_l, env, 0, out)),
                },
            };
            match rows {
                Err(s) => Err(s),
                Ok(rows) => Ok(RelationV { cols: j.cols, rows }),
            }
        },
    }
}

/// What decides whether two rows join.
struct Join<'a> {
    cols: &'a Vec<RelCol>,
    on: Option<&'a Expr>,
    pairs: &'a Vec<(usize, usize)>,
}

impl<'a> Join<'a> {
    spec fn spec_view(&self) -> JoinV {
        JoinV {
            cols: rel_cols_view(self.cols@),
            on: match self.on {
                Some(e) => Some(e@),
                None => None,
            },
            pairs: self.pairs@,
        }
    }

    /// Whether a combined row meets the join condition.
    fn matches(&self, row: &Vec<Value>, tick: u64, env: &Env) -> (r: Result<bool, Stop>)
        ensures
            crate::eval::bool_result(r) == joins(row_view(row@), self.spec_view(), tick, env@),
    {
        let ghost rv = row_view(row@);
        let mut p: usize = 0;
        while p < self.pairs.len()
            invariant
                p <= self.pairs.len(),
                rv == row_view(row@),
                pairs_equal(rv, self.pairs@, p as int) == pairs_equal(rv, self.pairs@, 0),
            decreases self.pairs.len() - p,
        {
            let (a, b) = self.pairs[p];
            match cell_at(row, a).sql_eq(&cell_at(row, b)) {
                Some(true) => {},
                _ => {
                    return Ok(false);
                },
            }
            p += 1;
        }
        match self.on {
            None => Ok(true),
            Some(e) => match eval(e, &EvalCtx::rel(row, self.cols, tick), env) {
                Ok(v) => Ok(
                    match v.as_bool() {
                        Some(b) => b,
                        None => false,
                    },
                ),
                Err(s) => Err(s),
            },
        }
    }
}

fn two_rows(a: &Vec<Value>, b: &Vec<Value>) -> (r: Vec<Value>)
    ensures
        row_view(r@) == row_view(a@) + row_view(b@),
{
    let mut out = clone_row(a);
    let mut rest = clone_row(b);
    let ghost av = row_view(out@);
    let ghost bv = row_view(rest@);
    out.append(&mut rest);
    assert(row_view(out@) =~= av + bv);
    out
}

fn combine(outer: &Vec<Value>, inner: &Vec<Value>, swapped: bool) -> (r: Vec<Value>)
    ensures
        row_view(r@) == side_by_side(row_view(outer@), row_view(inner@), swapped),
{
    if swapped {
        two_rows(inner, outer)
    } else {
        two_rows(outer, inner)
    }
}

fn null_row(n: usize) -> (r: Vec<Value>)
    ensures
        row_view(r@) == nulls(n as nat),
{
    let mut out: Vec<Value> = Vec::new();
    while out.len() < n
        invariant
            out.len() <= n,
            forall|k: int| 0 <= k < out.len() ==> #[trigger] out@[k] == Value::Null,
        decreases n - out.len(),
    {
        out.push(Value::Null);
    }
    assert(row_view(out@) =~= nulls(n as nat));
    out
}

fn tick_of(i: usize, k: usize, n: usize) -> (r: u64)
    ensures
        r == pair_tick(i as int, k as int, n as int),
{
    (i as u64).wrapping_mul(n as u64).wrapping_add(k as u64)
}

/// The hits of right rows so far, and the joined rows.
fn nested_join(
    outer: &Vec<Vec<Value>>,
    inner: &Vec<Vec<Value>>,
    j: &Join,
    swapped: bool,
    pad: &Option<Vec<Value>>,
    hits: &mut Vec<bool>,
    env: &Env,
) -> (r: Result<Vec<Vec<Value>>, Stop>)
    requires
        old(hits)@ == Seq::new(inner@.len(), |k: int| false),
    ensures
        rows_result(r) == nested_from(
            rows_view(outer@),
            rows_view(inner@),
            j.spec_view(),
            swapped,
            match pad {
                Some(p) => Some(row_view(p@)),
                None => None,
            },
            env@,
            0,
            Seq::empty(),
        ),
        (r is Ok && !swapped) ==> {
            &&& final(hits)@.len() == inner@.len()
            &&& forall|k: int|
                0 <= k < inner@.len() ==> #[trigger] final(hits)@[k] == met_by(
                    rows_view(outer@),
                    rows_view(inner@),
                    j.spec_view(),
                    env@,
                    k,
                    outer@.len() as int,
                )
        },
{
    let ghost ov = rows_view(outer@);
    let ghost nv = rows_view(inner@);
    let ghost jv = j.spec_view();
    let ghost pv = match pad {
        Some(p) => Some(row_view(p@)),
        None => None::<RowV>,
    };
    let mut out: Vec<Vec<Value>> = Vec::new();
    assert(rows_view(out@) =~= Seq::<RowV>::empty());
    let mut i: usize = 0;
    while i < outer.len()
        invariant
            i <= outer.len(),
            ov == rows_view(outer@),
            nv == rows_view(inner@),
            jv == j.spec_view(),
            pv == (match pad {
                Some(p) => Some(row_view(p@)),
                None => None::<RowV>,
            }),
            hits@.len() == inner@.len(),
            !swapped ==> forall|q: int|
                0 <= q < inner@.len() ==> #[trigger] hits@[q] == met_by(ov, nv, jv, env@, q, i as int),
            nested_from(ov, nv, jv, swapped, pv, env@, i as int, rows_view(out@)) == nested_from(
                ov,
                nv,
                jv,
                swapped,
                pv,
                env@,
                0,
                Seq::empty(),
            ),
        decreases outer.len() - i,
    {
        assert(ov[i as int] == row_view(outer@[i as int]@));
        let ghost start = MetV { rows: rows_view(out@), any: false };
        let ghost was = hits@;
        let mut any = false;
        let mut k: usize = 0;
        while k < inner.len()
            invariant
                i < outer.len(),
                k <= inner.len(),
                ov == rows_view(outer@),
                nv == rows_view(inner@),
                jv == j.spec_view(),
                pv == (match pad {
                    Some(p) => Some(row_view(p@)),
                    None => None::<RowV>,
                }),
                ov[i as int] == row_view(outer@[i as int]@),
                hits@.len() == inner@.len(),
                was.len() == inner@.len(),
                !swapped ==> forall|q: int|
                    0 <= q < inner@.len() ==> #[trigger] was[q] == met_by(
                        ov,
                        nv,
                        jv,
                        env@,
                        q,
                        i as int,
                    ),
                !swapped ==> forall|q: int|
                    0 <= q < inner@.len() ==> #[trigger] hits@[q] == (was[q] || (q < k && joins(
                        ov[i as int] + nv[q],
                        jv,
                        pair_tick(i as int, q, nv.len() as int),
                        env@,
                    ) == Ok::<bool, StopV>(true))),
                nested_from(ov, nv, jv, swapped, pv, env@, i as int, start.rows) == nested_from(
                    ov,
                    nv,
                    jv,
                    swapped,
                    pv,
                    env@,
                    0,
                    Seq::empty(),
                ),
                start.any == false,
                met_from(
                    ov[i as int],
                    i as int,
                    nv,
                    jv,
                    swapped,
                    env@,
                    k as int,
                    MetV { rows: rows_view(out@), any },
                ) == met_from(ov[i as int], i as int, nv, jv, swapped, env@, 0, start),
            decreases inner.len() - k,
        {
            assert(nv[k as int] == row_view(inner@[k as int]@));
            let row = combine(&outer[i], &inner[k], swapped);
            match j.matches(&row, tick_of(i, k, inner.len()), env) {
                Err(s) => {
                    return Err(s);
                },
                Ok(b) => if b {
                    let ghost before = rows_view(out@);
                    let ghost rv = row_view(row@);
                    out.push(row);
                    assert(rows_view(out@) =~= before.push(rv));
                    any = true;
                    hits.set(k, true);
                },
            }
            k += 1;
        }
        if !any {
            match pad {
                Some(p) => {
                    let ghost before = rows_view(out@);
                    let row = combine(&outer[i], p, swapped);
                    let ghost rv = row_view(row@);
                    out.push(row);
                    assert(rows_view(out@) =~= before.push(rv));
                },
                None => {},
            }
        }
        proof {
            if !swapped {
                assert forall|q: int| 0 <= q < inner@.len() implies #[trigger] hits@[q] == met_by(
                    ov,
                    nv,
                    jv,
                    env@,
                    q,
                    i + 1,
                ) by {
                    assert(was[q] == met_by(ov, nv, jv, env@, q, i as int));
                    let now = joins(
                        ov[i as int] + nv[q],
                        jv,
                        pair_tick(i as int, q, nv.len() as int),
                        env@,
                    ) == Ok::<bool, StopV>(true);
                    if was[q] {
                        let w = choose|w: int|
                            0 <= w < i && joins(
                                #[trigger] ov[w] + nv[q],
                                jv,
                                pair_tick(w, q, nv.len() as int),
                                env@,
                            ) == Ok::<bool, StopV>(true);
                        assert(0 <= w < i + 1);
                        assert(met_by(ov, nv, jv, env@, q, i + 1));
                    }
                    if now {
                        assert(met_by(ov, nv, jv, env@, q, i + 1));
                    }
                    if met_by(ov, nv, jv, env@, q, i + 1) && !now {
                        let w = choose|w: int|
                            0 <= w < i + 1 && joins(
                                #[trigger] ov[w] + nv[q],
                                jv,
                                pair_tick(w, q, nv.len() as int),
                                env@,
                            ) == Ok::<bool, StopV>(true);
                        assert(w != i);
                        assert(met_by(ov, nv, jv, env@, q, i as int));
                    }
                }
            }
        }
        i += 1;
    }
    Ok(out)
}

fn no_hits(n: usize) -> (r: Vec<bool>)
    ensures
        r@ == Seq::new(n as nat, |k: int| false),
{
    let mut out: Vec<bool> = Vec::new();
    while out.len() < n
        invariant
            out.len() <= n,
            forall|k: int| 0 <= k < out.len() ==> #[trigger] out@[k] == false,
        decreases n - out.len(),
    {
        out.push(false);
    }
    assert(out@ =~= Seq::new(n as nat, |k: int| false));
    out
}

fn using_pairs(l: &Vec<RelCol>, r: &Vec<RelCol>, using: &Vec<String>) -> (o: Result<
    Vec<(usize, usize)>,
    Stop,
>)
    requires
        l.len() + r.len() <= usize::MAX,
    ensures
        using_from(
            rel_cols_view(l@),
            rel_cols_view(r@),
            strings_view(using@),
            0,
            Seq::empty(),
        ) == (match o {
            Ok(v) => Ok(v@),
            Err(s) => Err(s@),
        }),
{
    let ghost lv = rel_cols_view(l@);
    let ghost rv = rel_cols_view(r@);
    let ghost uv = strings_view(using@);
    let mut out: Vec<(usize, usize)> = Vec::new();
    let mut i: usize = 0;
    while i < using.len()
        invariant
            i <= using.len(),
            l.len() + r.len() <= usize::MAX,
            lv == rel_cols_view(l@),
            rv == rel_cols_view(r@),
            uv == strings_view(using@),
            using_from(lv, rv, uv, i as int, out@) == using_from(lv, rv, uv, 0, Seq::empty()),
        decreases using.len() - i,
    {
        assert(uv[i as int] == using@[i as int]@);
        let a: usize = match resolve_col(l, None, &using[i]) {
            Ok(a) => a,
            Err(e) => {
                return Err(Stop::Fail(e));
            },
        };
        let b: usize = match resolve_col(r, None, &using[i]) {
            Ok(b) => b,
            Err(e) => {
                return Err(Stop::Fail(e));
            },
        };
        out.push((a, l.len() + b));
        i += 1;
    }
    Ok(out)
}

fn both_cols(l: &Vec<RelCol>, r: &Vec<RelCol>) -> (c: Vec<RelCol>)
    ensures
        rel_cols_view(c@) == rel_cols_view(l@) + rel_cols_view(r@),
        c.len() == l.len() + r.len(),
{
    let mut out: Vec<RelCol> = Vec::new();
    let ghost all = rel_cols_view(l@) + rel_cols_view(r@);
    let mut i: usize = 0;
    while i < l.len()
        invariant
            i <= l.len(),
            out.len() == i,
            forall|k: int| 0 <= k < i ==> (#[trigger] out@[k])@ == l@[k]@,
        decreases l.len() - i,
    {
        out.push(l[i].clone());
        i += 1;
    }
    let mut k: usize = 0;
    while k < r.len()
        invariant
            k <= r.len(),
            out.len() == l.len() + k,
            forall|q: int| 0 <= q < l.len() ==> (#[trigger] out@[q])@ == l@[q]@,
            forall|q: int| l.len() <= q < l.len() + k ==> (#[trigger] out@[q])@ == r@[q - l.len()]@,
        decreases r.len() - k,
    {
        out.push(r[k].clone());
        k += 1;
    }
    assert(rel_cols_view(out@) =~= all);
    out
}

/// Join two relations.
pub fn join(
    l: Relation,
    r: Relation,
    kind: JoinKind,
    on: &Option<Box<Expr>>,
    using: &Vec<String>,
    env: &Env,
) -> (o: Result<Relation, Stop>)
    ensures
        relation_result(o) == joined(
            l@,
            r@,
            kind,
            match boxed_view(*on) {
                Some(e) => Some(*e),
                None => None,
            },
            strings_view(using@),
            env@,
        ),
{
    proof {
        lemma_boxed(*on);
    }
    let cols = both_cols(&l.cols, &r.cols);
    let pairs = match using_pairs(&l.cols, &r.cols, using) {
        Ok(p) => p,
        Err(s) => {
            return Err(s);
        },
    };
    let cond: Option<&Expr> = match on {
        Some(e) => Some(&**e),
        None => None,
    };
    let rows = {
        let j = Join { cols: &cols, on: cond, pairs: &pairs };
        let null_l = null_row(l.cols.len());
        let null_r = null_row(r.cols.len());
        match kind {
            JoinKind::Inner | JoinKind::Cross => {
                let mut hits = no_hits(r.rows.len());
                nested_join(&l.rows, &r.rows, &j, false, &None, &mut hits, env)
            },
            JoinKind::Left => {
                let mut hits = no_hits(r.rows.len());
                nested_join(&l.rows, &r.rows, &j, false, &Some(null_r), &mut hits, env)
            },
            JoinKind::Right => {
                let mut hits = no_hits(l.rows.len());
                nested_join(&r.rows, &l.rows, &j, true, &Some(null_l), &mut hits, env)
            },
            JoinKind::Full => {
                let mut hits = no_hits(r.rows.len());
                match nested_join(&l.rows, &r.rows, &j, false, &Some(null_r), &mut hits, env) {
                    Err(s) => Err(s),
                    Ok(v) => Ok(unmet_rows(&l.rows, &r.rows, &j, &null_l, &hits, v, env)),
                }
            },
        }
    };
    match rows {
        Ok(rows) => Ok(Relation { cols, rows }),
        Err(s) => Err(s),
    }
}

fn unmet_rows(
    l: &Vec<Vec<Value>>,
    r: &Vec<Vec<Value>>,
    j: &Join,
    pad: &Vec<Value>,
    hits: &Vec<bool>,
    rows: Vec<Vec<Value>>,
    env: &Env,
) -> (o: Vec<Vec<Value>>)
    requires
        hits@.len() == r@.len(),
        forall|k: int|
            0 <= k < r@.len() ==> #[trigger] hits@[k] == met_by(
                rows_view(l@),
                rows_view(r@),
                j.spec_view(),
                env@,
                k,
                l@.len() as int,
            ),
    ensures
        rows_view(o@) == unmet_from(
            rows_view(l@),
            rows_view(r@),
            j.spec_view(),
            row_view(pad@),
            env@,
            0,
            rows_view(rows@),
        ),
{
    let ghost lv = rows_view(l@);
    let ghost rv = rows_view(r@);
    let ghost jv = j.spec_view();
    let ghost start = rows_view(rows@);
    let mut out = rows;
    let mut k: usize = 0;
    while k < r.len()
        invariant
            k <= r.len(),
            hits@.len() == r@.len(),
            lv == rows_view(l@),
            rv == rows_view(r@),
            jv == j.spec_view(),
            forall|q: int|
                0 <= q < r@.len() ==> #[trigger] hits@[q] == met_by(
                    lv,
                    rv,
                    jv,
                    env@,
                    q,
                    l@.len() as int,
                ),
            unmet_from(lv, rv, jv, row_view(pad@), env@, k as int, rows_view(out@)) == unmet_from(
                lv,
                rv,
                jv,
                row_view(pad@),
                env@,
                0,
                start,
            ),
        decreases r.len() - k,
    {
        assert(rv[k as int] == row_view(r@[k as int]@));
        assert(hits@[k as int] == met_by(lv, rv, jv, env@, k as int, l@.len() as int));
        if !hits[k] {
            let ghost before = rows_view(out@);
            let row = two_rows(pad, &r[k]);
            let ghost xv = row_view(row@);
            out.push(row);
            assert(rows_view(out@) =~= before.push(xv));
        }
        k += 1;
    }
    out
}

} // verus!
