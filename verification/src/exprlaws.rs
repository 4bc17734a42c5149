//! What expressions mean.
use vstd::prelude::*;
use crate::asks::{RealsV, StopV};
use crate::catalog::{column_at, column_pos, SchemaV};
use crate::env::EnvV;
use crate::eval::{
    answers, between_value, column_value, ev, ev_case, ev_in, param_value, rel_ctx, resolve_from,
    resolved, row_ctx, CtxV, RelColV,
};
use crate::funcs::{law_quotient_remainder, quotient, remainder};
use crate::ieee::{law_integers_keep_their_order, Order};
use crate::ops::{binary_of, cast_of, key_order, unary_value};
use crate::sql::{BinOp, CastTarget, ExprV, UnOp};
use crate::text::same_name;
use crate::value::{char_codes, codes_order, truth, value_eq, value_order, RowV, ValueV};

verus! {

// ---- names ----------------------------------------------------------------------------------------

proof fn lemma_resolve(
    cols: Seq<RelColV>,
    table: Option<Seq<char>>,
    name: Seq<char>,
    i: int,
    found: Option<usize>,
)
    requires
        0 <= i <= cols.len() <= usize::MAX,
        match found {
            Some(k) => k < i && answers(cols[k as int], table, name) && forall|x: int|
                0 <= x < i && #[trigger] answers(cols[x], table, name) ==> x == k,
            None => forall|x: int| 0 <= x < i ==> !(#[trigger] answers(cols[x], table, name)),
        },
    ensures
        match resolve_from(cols, table, name, i, found) {
            Ok(k) => k < cols.len() && answers(cols[k as int], table, name) && forall|x: int|
                0 <= x < cols.len() && #[trigger] answers(cols[x], table, name) ==> x == k,
            Err(_) => (forall|x: int|
                0 <= x < cols.len() ==> !(#[trigger] answers(cols[x], table, name))) || exists|
                x: int,
                y: int,
            |
                0 <= x < y < cols.len() && #[trigger] answers(cols[x], table, name)
                    && #[trigger] answers(cols[y], table, name),
        },
    decreases cols.len() - i,
{
    if i < cols.len() {
        if answers(cols[i], table, name) {
            if found is Some {
                assert(answers(cols[found->0 as int], table, name));
            } else {
                lemma_resolve(cols, table, name, i + 1, Some(i as usize));
            }
        } else {
            lemma_resolve(cols, table, name, i + 1, found);
        }
    }
}

/// A name refers to the one column that has it, and, where it is qualified, whose source
/// has the qualifier. With no such column, or with two, it refers to none.
pub proof fn law_a_name_is_one_column(
    cols: Seq<RelColV>,
    table: Option<Seq<char>>,
    name: Seq<char>,
)
    requires
        cols.len() <= usize::MAX,
    ensures
        match resolved(cols, table, name) {
            Ok(k) => {
                &&& k < cols.len()
                &&& same_name(cols[k as int].name, name)
                &&& table matches Some(t) ==> cols[k as int].table is Some && same_name(
                    cols[k as int].table->0,
                    t,
                )
                &&& forall|x: int|
                    0 <= x < cols.len() && same_name((#[trigger] cols[x]).name, name) && (
                    table is None || (cols[x].table is Some && same_name(
                        cols[x].table->0,
                        table->0,
                    ))) ==> x == k
            },
            Err(_) => (forall|x: int|
                0 <= x < cols.len() && same_name((#[trigger] cols[x]).name, name) ==> table is Some
                    && !(cols[x].table is Some && same_name(cols[x].table->0, table->0)))
                || exists|x: int, y: int|
                0 <= x < y < cols.len() && same_name((#[trigger] cols[x]).name, name) && same_name(
                    (#[trigger] cols[y]).name,
                    name,
                ),
        },
{
    lemma_resolve(cols, table, name, 0, None);
    match resolved(cols, table, name) {
        Ok(k) => {
            assert forall|x: int|
                0 <= x < cols.len() && same_name((#[trigger] cols[x]).name, name) && (table is None
                    || (cols[x].table is Some && same_name(
                    cols[x].table->0,
                    table->0,
                ))) implies x == k by {
                assert(answers(cols[x], table, name));
            }
        },
        Err(_) => {
            if forall|x: int| 0 <= x < cols.len() ==> !(#[trigger] answers(cols[x], table, name)) {
                assert forall|x: int|
                    0 <= x < cols.len() && same_name((#[trigger] cols[x]).name, name) implies table is Some
                    && !(cols[x].table is Some && same_name(cols[x].table->0, table->0)) by {
                    assert(!answers(cols[x], table, name));
                }
            } else {
                let (x, y) = choose|x: int, y: int|
                    0 <= x < y < cols.len() && #[trigger] answers(cols[x], table, name)
                        && #[trigger] answers(cols[y], table, name);
                assert(same_name(cols[x].name, name) && same_name(cols[y].name, name));
            }
        },
    }
}

proof fn lemma_column_at(s: SchemaV, name: Seq<char>, i: int)
    requires
        0 <= i <= s.columns.len() <= usize::MAX,
    ensures
        match column_at(s.columns, name, i) {
            Some(k) => i <= k < s.columns.len() && same_name(s.columns[k as int].name, name)
                && forall|x: int| i <= x < k ==> !same_name((#[trigger] s.columns[x]).name, name),
            None => forall|x: int|
                i <= x < s.columns.len() ==> !same_name((#[trigger] s.columns[x]).name, name),
        },
    decreases s.columns.len() - i,
{
    if i < s.columns.len() && !same_name(s.columns[i].name, name) {
        lemma_column_at(s, name, i + 1);
    }
}

/// In a table a name refers to the first column that has it, and a column reference
/// has the value of the row's cell there.
pub proof fn law_columns_read_cells(row: RowV, s: SchemaV, name: Seq<char>, tick: u64, env: EnvV)
    requires
        s.columns.len() <= usize::MAX,
    ensures
        match column_pos(s, name) {
            Some(k) => {
                &&& k < s.columns.len()
                &&& same_name(s.columns[k as int].name, name)
                &&& forall|x: int| 0 <= x < k ==> !same_name((#[trigger] s.columns[x]).name, name)
                &&& k < row.len() ==> ev(ExprV::Column(name), row_ctx(row, s, tick), env) == Ok::<
                    ValueV,
                    StopV,
                >(row[k as int])
            },
            None => {
                &&& forall|x: int|
                    0 <= x < s.columns.len() ==> !same_name((#[trigger] s.columns[x]).name, name)
                &&& ev(ExprV::Column(name), row_ctx(row, s, tick), env) is Err
            },
        },
{
    lemma_column_at(s, name, 0);
    reveal(column_value);
}

/// In a joined row a column reference has the value of the cell of the one column that
/// it refers to.
pub proof fn law_joined_columns_read_cells(
    row: RowV,
    cols: Seq<RelColV>,
    table: Option<Seq<char>>,
    name: Seq<char>,
    tick: u64,
    env: EnvV,
)
    requires
        row.len() == cols.len() <= usize::MAX,
    ensures
        ({
            let e = match table {
                Some(t) => ExprV::Qualified(t, name),
                None => ExprV::Column(name),
            };
            match resolved(cols, table, name) {
                Ok(k) => k < row.len() && ev(e, rel_ctx(row, cols, tick), env) == Ok::<
                    ValueV,
                    StopV,
                >(row[k as int]),
                Err(_) => ev(e, rel_ctx(row, cols, tick), env) is Err,
            }
        }),
{
    law_a_name_is_one_column(cols, table, name);
    reveal(column_value);
}

/// The parameters of a statement are counted from one.
pub proof fn law_parameters_are_counted(i: usize, c: CtxV, env: EnvV)
    ensures
        1 <= i <= env.params.len() ==> ev(ExprV::Param(i), c, env) == Ok::<ValueV, StopV>(
            env.params[i - 1],
        ),
        !(1 <= i <= env.params.len()) ==> ev(ExprV::Param(i), c, env) is Err,
{
    reveal(param_value);
}

// ---- truth ----------------------------------------------------------------------------------------

/// A value for what is known of a statement: one for true, zero for false, `NULL` for
/// unknown.
pub open spec fn told(b: Option<bool>) -> ValueV {
    match b {
        Some(true) => ValueV::Int(1),
        Some(false) => ValueV::Int(0),
        None => ValueV::Null,
    }
}

/// `NULL` is neither true nor false; a number is true unless it is zero.
pub proof fn law_truth(i: i64, t: Seq<char>)
    ensures
        truth(ValueV::Null) is None,
        truth(ValueV::Int(i)) == Some(i != 0),
        truth(ValueV::Real(0)) == Some(false),
        truth(ValueV::Text(t)) == Some(t.len() > 0 && t != "0"@),
{
}

/// `AND` is false where either side is, true where both are, and unknown otherwise; `OR`
/// is true where either side is, false where both are; `NOT` turns true and false
/// around.
pub proof fn law_logic(t: RealsV, l: ValueV, r: ValueV)
    ensures
        binary_of(t, BinOp::And, l, r) == Ok::<ValueV, StopV>(
            told(
                match (truth(l), truth(r)) {
                    (Some(false), _) => Some(false),
                    (_, Some(false)) => Some(false),
                    (Some(true), Some(true)) => Some(true),
                    _ => None,
                },
            ),
        ),
        binary_of(t, BinOp::Or, l, r) == Ok::<ValueV, StopV>(
            told(
                match (truth(l), truth(r)) {
                    (Some(true), _) => Some(true),
                    (_, Some(true)) => Some(true),
                    (Some(false), Some(false)) => Some(false),
                    _ => None,
                },
            ),
        ),
        unary_value(UnOp::Not, l) == Ok::<ValueV, StopV>(
            told(
                match truth(l) {
                    Some(b) => Some(!b),
                    None => None,
                },
            ),
        ),
{
    reveal(binary_of);
    reveal(unary_value);
}

/// `IS NULL` is never unknown.
pub proof fn law_is_null(e: ExprV, c: CtxV, env: EnvV, v: ValueV)
    requires
        ev(e, c, env) == Ok::<ValueV, StopV>(v),
    ensures
        ev(ExprV::IsNull { e: Box::new(e), negated: false }, c, env) == Ok::<ValueV, StopV>(
            told(Some(v is Null)),
        ),
        ev(ExprV::IsNull { e: Box::new(e), negated: true }, c, env) == Ok::<ValueV, StopV>(
            told(Some(!(v is Null))),
        ),
{
}

// ---- comparisons ----------------------------------------------------------------------------------

/// Integers compare as the numbers that they are.
pub proof fn law_integers_compare(t: RealsV, a: i64, b: i64)
    requires
        -0x20_0000_0000_0000 < a < 0x20_0000_0000_0000,
        -0x20_0000_0000_0000 < b < 0x20_0000_0000_0000,
    ensures
        ({
            let (x, y) = (ValueV::Int(a), ValueV::Int(b));
            &&& binary_of(t, BinOp::Eq, x, y) == Ok::<ValueV, StopV>(told(Some(a == b)))
            &&& binary_of(t, BinOp::Ne, x, y) == Ok::<ValueV, StopV>(told(Some(a != b)))
            &&& binary_of(t, BinOp::Lt, x, y) == Ok::<ValueV, StopV>(told(Some(a < b)))
            &&& binary_of(t, BinOp::Le, x, y) == Ok::<ValueV, StopV>(told(Some(a <= b)))
            &&& binary_of(t, BinOp::Gt, x, y) == Ok::<ValueV, StopV>(told(Some(a > b)))
            &&& binary_of(t, BinOp::Ge, x, y) == Ok::<ValueV, StopV>(told(Some(a >= b)))
            &&& value_eq(x, y) == Some(a == b)
        }),
{
    reveal(binary_of);
    law_integers_keep_their_order(a, b);
}

/// Whether a text comes before another in a dictionary: where they first differ its
/// character is the lower, or it ends there.
pub open spec fn text_before(a: Seq<char>, b: Seq<char>) -> bool {
    exists|k: int|
        0 <= k <= a.len() && k < b.len() && #[trigger] a.take(k) == b.take(k) && (k == a.len() || (
        a[k] as u32) < (b[k] as u32))
}

proof fn lemma_codes_order(a: Seq<u32>, b: Seq<u32>)
    ensures
        codes_order(a, b) == Order::Equal <==> a == b,
        codes_order(a, b) == Order::Less <==> codes_before(a, b),
        codes_order(a, b) == Order::Greater <==> codes_order(b, a) == Order::Less,
    decreases a.len(),
{
    if a.len() == 0 && b.len() == 0 {
        assert(a =~= b);
    } else if a.len() == 0 {
        assert(a.take(0) =~= b.take(0));
    } else if b.len() == 0 {
    } else {
        let (x, y) = (a.drop_first(), b.drop_first());
        lemma_codes_order(x, y);
        if a[0] == b[0] {
            assert(a =~= seq![a[0]] + x);
            assert(b =~= seq![b[0]] + y);
            if codes_before(x, y) {
                let k = choose|k: int|
                    0 <= k <= x.len() && k < y.len() && #[trigger] x.take(k) == y.take(k) && (k
                        == x.len() || x[k] < y[k]);
                assert(a.take(k + 1) =~= seq![a[0]] + x.take(k));
                assert(b.take(k + 1) =~= seq![b[0]] + y.take(k));
            }
            if codes_before(a, b) {
                let k = choose|k: int|
                    0 <= k <= a.len() && k < b.len() && #[trigger] a.take(k) == b.take(k) && (k
                        == a.len() || a[k] < b[k]);
                assert(k > 0);
                assert(x.take(k - 1) =~= a.take(k).drop_first());
                assert(y.take(k - 1) =~= b.take(k).drop_first());
            }
        } else {
            assert(a[0] != b[0]);
            assert(a.take(0) =~= b.take(0));
            if codes_before(a, b) {
                let k = choose|k: int|
                    0 <= k <= a.len() && k < b.len() && #[trigger] a.take(k) == b.take(k) && (k
                        == a.len() || a[k] < b[k]);
                if k > 0 {
                    assert(a.take(k)[0] == b.take(k)[0]);
                }
            }
        }
    }
}

spec fn codes_before(a: Seq<u32>, b: Seq<u32>) -> bool {
    exists|k: int|
        0 <= k <= a.len() && k < b.len() && #[trigger] a.take(k) == b.take(k) && (k == a.len()
            || a[k] < b[k])
}

proof fn lemma_same_code(a: char, b: char)
    requires
        a as u32 == b as u32,
    ensures
        a == b,
{
}

proof fn lemma_codes_take(a: Seq<char>, b: Seq<char>, k: int)
    requires
        0 <= k <= a.len(),
        k <= b.len(),
    ensures
        char_codes(a).take(k) == char_codes(b).take(k) <==> a.take(k) == b.take(k),
{
    if char_codes(a).take(k) == char_codes(b).take(k) {
        assert forall|i: int| 0 <= i < k implies a.take(k)[i] == b.take(k)[i] by {
            assert(char_codes(a).take(k)[i] == char_codes(b).take(k)[i]);
            lemma_same_code(a[i], b[i]);
        }
        assert(a.take(k) =~= b.take(k));
    }
    if a.take(k) == b.take(k) {
        assert forall|i: int| 0 <= i < k implies char_codes(a).take(k)[i] == char_codes(b).take(
            k,
        )[i] by {
            assert(a.take(k)[i] == b.take(k)[i]);
        }
        assert(char_codes(a).take(k) =~= char_codes(b).take(k));
    }
}

proof fn lemma_text_order(a: Seq<char>, b: Seq<char>)
    ensures
        codes_order(char_codes(a), char_codes(b)) == Order::Equal <==> a == b,
        codes_order(char_codes(a), char_codes(b)) == Order::Less <==> text_before(a, b),
{
    let (x, y) = (char_codes(a), char_codes(b));
    lemma_codes_order(x, y);
    if x == y {
        lemma_codes_take(a, b, a.len() as int);
        assert(x.take(a.len() as int) =~= x && y.take(b.len() as int) =~= y);
        assert(a.take(a.len() as int) =~= a && b.take(b.len() as int) =~= b);
    }
    if codes_before(x, y) {
        let k = choose|k: int|
            0 <= k <= x.len() && k < y.len() && #[trigger] x.take(k) == y.take(k) && (k == x.len()
                || x[k] < y[k]);
        lemma_codes_take(a, b, k);
        assert(a.take(k) == b.take(k));
    }
    if text_before(a, b) {
        let k = choose|k: int|
            0 <= k <= a.len() && k < b.len() && #[trigger] a.take(k) == b.take(k) && (k == a.len()
                || (a[k] as u32) < (b[k] as u32));
        lemma_codes_take(a, b, k);
        assert(x.take(k) == y.take(k));
    }
}

/// Texts compare as in a dictionary, by the codes of their characters.
pub proof fn law_texts_compare(t: RealsV, a: Seq<char>, b: Seq<char>)
    ensures
        ({
            let (x, y) = (ValueV::Text(a), ValueV::Text(b));
            &&& binary_of(t, BinOp::Eq, x, y) == Ok::<ValueV, StopV>(told(Some(a == b)))
            &&& binary_of(t, BinOp::Ne, x, y) == Ok::<ValueV, StopV>(told(Some(a != b)))
            &&& binary_of(t, BinOp::Lt, x, y) == Ok::<ValueV, StopV>(told(Some(text_before(a, b))))
            &&& binary_of(t, BinOp::Ge, x, y) == Ok::<ValueV, StopV>(told(Some(!text_before(a, b))))
            &&& binary_of(t, BinOp::Gt, x, y) == Ok::<ValueV, StopV>(told(Some(text_before(b, a))))
            &&& binary_of(t, BinOp::Le, x, y) == Ok::<ValueV, StopV>(told(Some(!text_before(b, a))))
            &&& value_eq(x, y) == Some(a == b)
        }),
{
    reveal(binary_of);
    lemma_text_order(a, b);
    lemma_text_order(b, a);
    lemma_codes_order(char_codes(a), char_codes(b));
}

/// With a `NULL` every comparison, sum, product and concatenation is unknown.
pub proof fn law_null_spreads(t: RealsV, op: BinOp, v: ValueV)
    requires
        op != BinOp::And,
        op != BinOp::Or,
    ensures
        binary_of(t, op, ValueV::Null, v) == Ok::<ValueV, StopV>(ValueV::Null),
        binary_of(t, op, v, ValueV::Null) == Ok::<ValueV, StopV>(ValueV::Null),
        value_eq(ValueV::Null, v) is None,
        value_eq(v, ValueV::Null) is None,
{
    reveal(binary_of);
}

/// Under a sort key `NULL`s stand together at the end that they are meant for, whatever
/// the direction. Of two known values the lesser comes first, or, descending, last.
pub proof fn law_sort_keys(a: ValueV, b: ValueV, asc: bool, nulls_first: bool)
    ensures
        a is Null && b is Null ==> key_order(a, b, asc, nulls_first) == Order::Equal,
        a is Null && !(b is Null) ==> (key_order(a, b, asc, nulls_first) == Order::Less
            <==> nulls_first) && (key_order(b, a, asc, nulls_first) == Order::Greater
            <==> nulls_first),
        !(a is Null) && !(b is Null) ==> {
            &&& value_order(a, b) == Some(Order::Less) ==> (key_order(a, b, asc, nulls_first)
                == if asc {
                Order::Less
            } else {
                Order::Greater
            })
            &&& value_order(a, b) == Some(Order::Greater) ==> (key_order(a, b, asc, nulls_first)
                == if asc {
                Order::Greater
            } else {
                Order::Less
            })
            &&& value_order(a, b) == Some(Order::Equal) ==> key_order(a, b, asc, nulls_first)
                == Order::Equal
        },
{
}

// ---- arithmetic -----------------------------------------------------------------------------------

/// Sums, differences and products of integers are exact where they fit.
pub proof fn law_integer_arithmetic(t: RealsV, a: i64, b: i64)
    ensures
        ({
            let (x, y) = (ValueV::Int(a), ValueV::Int(b));
            &&& i64::MIN <= a + b <= i64::MAX ==> binary_of(t, BinOp::Add, x, y) == Ok::<
                ValueV,
                StopV,
            >(ValueV::Int((a + b) as i64))
            &&& i64::MIN <= a - b <= i64::MAX ==> binary_of(t, BinOp::Sub, x, y) == Ok::<
                ValueV,
                StopV,
            >(ValueV::Int((a - b) as i64))
            &&& i64::MIN <= a * b <= i64::MAX ==> binary_of(t, BinOp::Mul, x, y) == Ok::<
                ValueV,
                StopV,
            >(ValueV::Int((a * b) as i64))
            &&& a > i64::MIN ==> unary_value(UnOp::Neg, x) == Ok::<ValueV, StopV>(
                ValueV::Int((-a) as i64),
            )
        }),
{
    reveal(binary_of);
    reveal(unary_value);
}

/// Division of integers cuts the fraction off: quotient times divisor and the rest make
/// the dividend, the rest is smaller than the divisor and has the sign of the dividend.
/// By zero there is no quotient and no rest.
pub proof fn law_integer_division(t: RealsV, a: i64, b: i64)
    requires
        !(a == i64::MIN && b == -1),
    ensures
        ({
            let q = binary_of(t, BinOp::Div, ValueV::Int(a), ValueV::Int(b));
            let r = binary_of(t, BinOp::Mod, ValueV::Int(a), ValueV::Int(b));
            &&& b == 0 ==> q == Ok::<ValueV, StopV>(ValueV::Null) && r == Ok::<ValueV, StopV>(
                ValueV::Null,
            )
            &&& b != 0 ==> {
                &&& q matches Ok(ValueV::Int(x)) && (r matches Ok(ValueV::Int(y)) && x * b + y == a
                    && (a >= 0 ==> 0 <= y) && (a <= 0 ==> y <= 0) && (b > 0 ==> -b < y < b) && (b
                    < 0 ==> b < y < -b))
            }
        }),
{
    reveal(binary_of);
    if b != 0 {
        law_quotient_remainder(a as int, b as int);
        lemma_quotient_fits(a as int, b as int);
        let (q, r) = (quotient(a as int, b as int), remainder(a as int, b as int));
        assert(q * b == b * q) by (nonlinear_arith);
        assert((q as i64) * b + (r as i64) == a);
    }
}

proof fn lemma_quotient_fits(a: int, b: int)
    requires
        i64::MIN <= a <= i64::MAX,
        b != 0,
        i64::MIN <= b <= i64::MAX,
        !(a == i64::MIN && b == -1),
    ensures
        i64::MIN <= quotient(a, b) <= i64::MAX,
        b > 0 ==> -b < remainder(a, b) < b,
        b < 0 ==> b < remainder(a, b) < -b,
        a >= 0 ==> 0 <= remainder(a, b),
        a <= 0 ==> remainder(a, b) <= 0,
        i64::MIN <= remainder(a, b) <= i64::MAX,
{
    let x = if a < 0 {
        -a
    } else {
        a
    };
    let y = if b < 0 {
        -b
    } else {
        b
    };
    assert(0 <= x / y <= x && 0 <= x % y < y) by (nonlinear_arith)
        requires
            x >= 0,
            y > 0,
    ;
    if x == 0 {
        assert(x % y == 0) by (nonlinear_arith)
            requires
                x == 0,
                y > 0,
        ;
    }
    if y > 1 {
        assert(x / y < x || x == 0) by (nonlinear_arith)
            requires
                x >= 0,
                y > 1,
        ;
    }
}

/// `||` puts texts one behind the other.
pub proof fn law_concatenation(t: RealsV, a: Seq<char>, b: Seq<char>)
    ensures
        binary_of(t, BinOp::Concat, ValueV::Text(a), ValueV::Text(b)) == Ok::<ValueV, StopV>(
            ValueV::Text(a + b),
        ),
{
    reveal(binary_of);
}

/// A cast leaves `NULL`, and what has the type already, as it is; a truth value is one or
/// zero.
pub proof fn law_casts(t: RealsV, i: i64, b: u64, s: Seq<char>, target: CastTarget)
    ensures
        cast_of(t, ValueV::Null, target) == Ok::<ValueV, StopV>(ValueV::Null),
        cast_of(t, ValueV::Int(i), CastTarget::Int) == Ok::<ValueV, StopV>(ValueV::Int(i)),
        cast_of(t, ValueV::Real(b), CastTarget::Real) == Ok::<ValueV, StopV>(ValueV::Real(b)),
        cast_of(t, ValueV::Text(s), CastTarget::Text) == Ok::<ValueV, StopV>(ValueV::Text(s)),
        cast_of(t, ValueV::Int(i), CastTarget::Bool) == Ok::<ValueV, StopV>(told(Some(i != 0))),
{
    reveal(cast_of);
}

// ---- lists, ranges and cases ----------------------------------------------------------------------

proof fn lemma_in(
    v: ValueV,
    list: Seq<ExprV>,
    vals: RowV,
    negated: bool,
    i: int,
    saw_null: bool,
    c: CtxV,
    env: EnvV,
)
    requires
        0 <= i <= list.len(),
        vals.len() == list.len(),
        forall|k: int|
            0 <= k < list.len() ==> ev(#[trigger] list[k], c, env) == Ok::<ValueV, StopV>(vals[k]),
    ensures
        ev_in(v, list, negated, i, saw_null, c, env) == Ok::<ValueV, StopV>(
            told(
                if exists|k: int| i <= k < vals.len() && value_eq(v, #[trigger] vals[k]) == Some(
                    true,
                ) {
                    Some(!negated)
                } else if saw_null || exists|k: int|
                    i <= k < vals.len() && value_eq(v, #[trigger] vals[k]) is None {
                    None
                } else {
                    Some(negated)
                },
            ),
        ),
    decreases list.len() - i,
{
    if i < list.len() {
        assert(ev(list[i], c, env) == Ok::<ValueV, StopV>(vals[i]));
        match value_eq(v, vals[i]) {
            Some(true) => {
                assert(value_eq(v, vals[i]) == Some(true));
            },
            Some(false) => {
                lemma_in(v, list, vals, negated, i + 1, saw_null, c, env);
                if exists|k: int| i <= k < vals.len() && value_eq(v, #[trigger] vals[k]) == Some(
                    true,
                ) {
                    let k = choose|k: int|
                        i <= k < vals.len() && value_eq(v, #[trigger] vals[k]) == Some(true);
                    assert(i + 1 <= k);
                }
                if exists|k: int| i <= k < vals.len() && value_eq(v, #[trigger] vals[k]) is None {
                    let k = choose|k: int|
                        i <= k < vals.len() && value_eq(v, #[trigger] vals[k]) is None;
                    assert(i + 1 <= k);
                }
            },
            None => {
                lemma_in(v, list, vals, negated, i + 1, true, c, env);
                assert(value_eq(v, vals[i]) is None);
                if exists|k: int| i <= k < vals.len() && value_eq(v, #[trigger] vals[k]) == Some(
                    true,
                ) {
                    let k = choose|k: int|
                        i <= k < vals.len() && value_eq(v, #[trigger] vals[k]) == Some(true);
                    assert(i + 1 <= k);
                }
            },
        }
    }
}

/// `IN` is true where the value equals one of the list, unknown where it equals none but
/// a comparison is unknown, and false otherwise; `NOT IN` is the contrary.
pub proof fn law_in_list(
    e: ExprV,
    list: Seq<ExprV>,
    v: ValueV,
    vals: RowV,
    negated: bool,
    c: CtxV,
    env: EnvV,
)
    requires
        ev(e, c, env) == Ok::<ValueV, StopV>(v),
        !(v is Null),
        vals.len() == list.len(),
        forall|k: int|
            0 <= k < list.len() ==> ev(#[trigger] list[k], c, env) == Ok::<ValueV, StopV>(vals[k]),
    ensures
        ev(ExprV::InList { e: Box::new(e), list, negated }, c, env) == Ok::<ValueV, StopV>(
            told(
                if exists|k: int| 0 <= k < vals.len() && value_eq(v, #[trigger] vals[k]) == Some(
                    true,
                ) {
                    Some(!negated)
                } else if exists|k: int|
                    0 <= k < vals.len() && value_eq(v, #[trigger] vals[k]) is None {
                    None
                } else {
                    Some(negated)
                },
            ),
        ),
{
    lemma_in(v, list, vals, negated, 0, false, c, env);
}

/// `BETWEEN` is `>=` the one bound and `<=` the other; `NOT BETWEEN` the contrary.
pub proof fn law_between(
    t: RealsV,
    e: ExprV,
    lo: ExprV,
    hi: ExprV,
    v: ValueV,
    l: ValueV,
    h: ValueV,
    c: CtxV,
    env: EnvV,
)
    requires
        ev(e, c, env) == Ok::<ValueV, StopV>(v),
        ev(lo, c, env) == Ok::<ValueV, StopV>(l),
        ev(hi, c, env) == Ok::<ValueV, StopV>(h),
    ensures
        ({
            let ge = binary_of(t, BinOp::Ge, v, l)->Ok_0;
            let le = binary_of(t, BinOp::Le, v, h)->Ok_0;
            let both = binary_of(t, BinOp::And, ge, le);
            let (x, y, z) = (Box::new(e), Box::new(lo), Box::new(hi));
            &&& ev(ExprV::Between { e: x, lo: y, hi: z, negated: false }, c, env) == both
            &&& ev(ExprV::Between { e: x, lo: y, hi: z, negated: true }, c, env) == unary_value(
                UnOp::Not,
                both->Ok_0,
            )
        }),
{
    reveal(binary_of);
    reveal(unary_value);
    reveal(between_value);
}

proof fn lemma_case(
    operand: Option<ValueV>,
    whens: Seq<(ExprV, ExprV)>,
    vals: RowV,
    i: int,
    c: CtxV,
    env: EnvV,
    at: int,
)
    requires
        0 <= i <= at <= whens.len(),
        vals.len() == whens.len(),
        forall|k: int|
            0 <= k < whens.len() ==> ev((#[trigger] whens[k]).0, c, env) == Ok::<ValueV, StopV>(
                vals[k],
            ),
        forall|k: int| i <= k < at ==> !hits(operand, #[trigger] vals[k]),
        at < whens.len() ==> hits(operand, vals[at]),
    ensures
        ev_case(operand, whens, i, c, env) == (if at < whens.len() {
            Some(ev(whens[at].1, c, env))
        } else {
            None
        }),
    decreases at - i,
{
    if i < whens.len() {
        assert(ev(whens[i].0, c, env) == Ok::<ValueV, StopV>(vals[i]));
        if i < at {
            assert(!hits(operand, vals[i]));
            lemma_case(operand, whens, vals, i + 1, c, env, at);
        }
    }
}

/// Whether a branch of a `CASE` applies: its condition is true, or, with an operand, its
/// value equals that of the operand.
pub open spec fn hits(operand: Option<ValueV>, v: ValueV) -> bool {
    match operand {
        Some(x) => value_eq(v, x) == Some(true),
        None => truth(v) == Some(true),
    }
}

/// A `CASE` has the value of the first branch that applies, and of `ELSE`, or `NULL`,
/// where none does.
pub proof fn law_case(
    operand: Option<ExprV>,
    value: Option<ValueV>,
    whens: Seq<(ExprV, ExprV)>,
    vals: RowV,
    els: Option<ExprV>,
    at: int,
    c: CtxV,
    env: EnvV,
)
    requires
        operand is Some <==> value is Some,
        operand matches Some(x) ==> ev(x, c, env) == Ok::<ValueV, StopV>(value->0),
        vals.len() == whens.len(),
        forall|k: int|
            0 <= k < whens.len() ==> ev((#[trigger] whens[k]).0, c, env) == Ok::<ValueV, StopV>(
                vals[k],
            ),
        0 <= at <= whens.len(),
        forall|k: int| 0 <= k < at ==> !hits(value, #[trigger] vals[k]),
        at < whens.len() ==> hits(value, vals[at]),
    ensures
        ({
            let boxed = |o: Option<ExprV>|
                match o {
                    Some(x) => Some(Box::new(x)),
                    None => None,
                };
            ev(ExprV::Case { operand: boxed(operand), whens, els: boxed(els) }, c, env) == (if at
                < whens.len() {
                ev(whens[at].1, c, env)
            } else {
                match els {
                    Some(y) => ev(y, c, env),
                    None => Ok(ValueV::Null),
                }
            })
        }),
{
    lemma_case(value, whens, vals, 0, c, env, at);
}

} // verus!
