//! What aggregates make of the values of a group.
use vstd::prelude::*;
use crate::asks::{bits_of, AskV, Binary, RealsV, StopV};
use crate::env::{sql_fail, within, EnvV, IN_GROUP};
use crate::eval::{
    aggregate_of, all_ints, best_from, best_of, distinct_from, doubles_from, ev, ev_rows, has_key,
    int_sum, known_from, member_ctx, separated_from, CtxV,
};
use crate::ieee::{real_of_int, Order};
use crate::ops::value_key;
use crate::sql::{AggArgV, AggFunc, ExprV};
use crate::value::{value_order, RowV, ValueV};

verus! {

/// How many of the values are not `NULL`.
pub open spec fn count_known(all: RowV) -> nat
    decreases all.len(),
{
    if all.len() == 0 {
        0
    } else {
        count_known(all.drop_last()) + if all.last() is Null {
            0nat
        } else {
            1nat
        }
    }
}

proof fn lemma_known_snoc(all: RowV, v: ValueV, i: int, acc: RowV)
    requires
        0 <= i <= all.len(),
    ensures
        known_from(all.push(v), i, acc) == (if v is Null {
            known_from(all, i, acc)
        } else {
            known_from(all, i, acc).push(v)
        }),
    decreases all.len() - i,
{
    let more = all.push(v);
    if i < all.len() {
        assert(more[i] == all[i]);
        lemma_known_snoc(all, v, i + 1, acc);
        lemma_known_snoc(all, v, i + 1, acc.push(all[i]));
    } else {
        assert(more[i] == v);
        assert(known_from(more, i + 1, acc) == acc);
        assert(known_from(more, i + 1, acc.push(v)) == acc.push(v));
    }
}

proof fn lemma_known(all: RowV)
    ensures
        ({
            let known = known_from(all, 0, Seq::empty());
            &&& known.len() == count_known(all)
            &&& forall|k: int| 0 <= k < known.len() ==> !(#[trigger] known[k] is Null)
                && all.contains(known[k])
            &&& forall|k: int|
                0 <= k < all.len() && !(#[trigger] all[k] is Null) ==> known.contains(all[k])
        }),
    decreases all.len(),
{
    if all.len() > 0 {
        let head = all.drop_last();
        let v = all.last();
        let less = known_from(head, 0, Seq::empty());
        let known = known_from(all, 0, Seq::empty());
        assert(all =~= head.push(v));
        lemma_known(head);
        lemma_known_snoc(head, v, 0, Seq::empty());
        assert forall|k: int| 0 <= k < known.len() implies !(#[trigger] known[k] is Null)
            && all.contains(known[k]) by {
            if k < less.len() {
                assert(known[k] == less[k]);
                let j = choose|j: int| 0 <= j < head.len() && head[j] == less[k];
                assert(all[j] == known[k]);
            } else {
                assert(all[all.len() - 1] == v);
            }
        }
        assert forall|k: int| 0 <= k < all.len() && !(#[trigger] all[k] is Null) implies known.contains(
            all[k],
        ) by {
            if k < head.len() {
                assert(head[k] == all[k]);
                let j = choose|j: int| 0 <= j < less.len() && less[j] == head[k];
                assert(known[j] == all[k]);
            } else {
                assert(known[less.len() as int] == v);
            }
        }
    }
}

/// A `NULL` counts in no aggregate but the one that gathers JSON.
pub proof fn law_nulls_do_not_count(
    t: RealsV,
    func: AggFunc,
    distinct: bool,
    sep: Option<Seq<char>>,
    all: RowV,
)
    requires
        func != AggFunc::JsonAgg,
    ensures
        aggregate_of(t, func, distinct, sep, all.push(ValueV::Null)) == aggregate_of(
            t,
            func,
            distinct,
            sep,
            all,
        ),
{
    reveal(aggregate_of);
    lemma_known_snoc(all, ValueV::Null, 0, Seq::empty());
}

/// `COUNT(x)` is the number of rows in which `x` is not `NULL`: none without rows, and
/// one more with each row in which it is known.
pub proof fn law_count(t: RealsV, sep: Option<Seq<char>>, all: RowV, v: ValueV)
    requires
        all.len() < i64::MAX,
    ensures
        aggregate_of(t, AggFunc::Count, false, sep, all) == Ok::<ValueV, StopV>(
            ValueV::Int(count_known(all) as i64),
        ),
        count_known(all) <= all.len(),
        aggregate_of(t, AggFunc::Count, false, sep, Seq::empty()) == Ok::<ValueV, StopV>(
            ValueV::Int(0),
        ),
        !(v is Null) ==> aggregate_of(t, AggFunc::Count, false, sep, all.push(v)) == Ok::<
            ValueV,
            StopV,
        >(ValueV::Int((count_known(all) + 1) as i64)),
{
    reveal(aggregate_of);
    lemma_known(all);
    lemma_known(all.push(v));
    lemma_count_bound(all);
    assert(all.push(v).drop_last() =~= all);
}

proof fn lemma_count_bound(all: RowV)
    ensures
        count_known(all) <= all.len(),
    decreases all.len(),
{
    if all.len() > 0 {
        lemma_count_bound(all.drop_last());
    }
}

proof fn lemma_distinct(vals: RowV, i: int, acc: RowV)
    requires
        0 <= i <= vals.len(),
        forall|a: int, b: int|
            0 <= a < b < acc.len() ==> value_key(#[trigger] acc[a]) != value_key(#[trigger] acc[b]),
    ensures
        ({
            let d = distinct_from(vals, i, acc);
            &&& forall|a: int, b: int|
                0 <= a < b < d.len() ==> value_key(#[trigger] d[a]) != value_key(#[trigger] d[b])
            &&& d.len() >= acc.len()
            &&& forall|a: int| 0 <= a < acc.len() ==> d[a] == #[trigger] acc[a]
            &&& forall|a: int| acc.len() <= a < d.len() ==> vals.contains(#[trigger] d[a])
            &&& forall|k: int| i <= k < vals.len() ==> has_key(d, #[trigger] vals[k])
        }),
    decreases vals.len() - i,
{
    if i < vals.len() {
        if has_key(acc, vals[i]) {
            lemma_distinct(vals, i + 1, acc);
            let d = distinct_from(vals, i + 1, acc);
            let a = choose|a: int|
                0 <= a < acc.len() && value_key(#[trigger] acc[a]) == value_key(vals[i]);
            assert(value_key(d[a]) == value_key(vals[i]));
            assert forall|k: int| i <= k < vals.len() implies has_key(d, #[trigger] vals[k]) by {
                if k == i {
                    assert(has_key(d, vals[i]));
                }
            }
        } else {
            let next = acc.push(vals[i]);
            assert forall|a: int, b: int| 0 <= a < b < next.len() implies value_key(
                #[trigger] next[a],
            ) != value_key(#[trigger] next[b]) by {
                if b < acc.len() {
                    assert(next[a] == acc[a] && next[b] == acc[b]);
                } else {
                    assert(next[a] == acc[a]);
                }
            }
            lemma_distinct(vals, i + 1, next);
            let d = distinct_from(vals, i + 1, next);
            assert(d[acc.len() as int] == next[acc.len() as int]);
            assert forall|a: int| 0 <= a < acc.len() implies d[a] == #[trigger] acc[a] by {
                assert(next[a] == acc[a]);
            }
            assert forall|a: int| acc.len() <= a < d.len() implies vals.contains(
                #[trigger] d[a],
            ) by {
                if a == acc.len() {
                    assert(vals[i] == d[a]);
                }
            }
            assert forall|k: int| i <= k < vals.len() implies has_key(d, #[trigger] vals[k]) by {
                if k == i {
                    assert(value_key(d[acc.len() as int]) == value_key(vals[i]));
                }
            }
        }
    }
}

/// With `DISTINCT`, an aggregate is that over values of which no two are the same: all
/// come from the group, and each known one of the group is among them once.
pub proof fn law_distinct_aggregates(
    t: RealsV,
    func: AggFunc,
    sep: Option<Seq<char>>,
    all: RowV,
) -> (vals: RowV)
    requires
        func != AggFunc::JsonAgg,
    ensures
        aggregate_of(t, func, true, sep, all) == aggregate_of(t, func, false, sep, vals),
        forall|a: int, b: int|
            0 <= a < b < vals.len() ==> value_key(#[trigger] vals[a]) != value_key(
                #[trigger] vals[b],
            ),
        forall|a: int| 0 <= a < vals.len() ==> all.contains(#[trigger] vals[a]) && !(vals[a] is Null),
        forall|k: int| 0 <= k < all.len() && !(#[trigger] all[k] is Null) ==> has_key(vals, all[k]),
{
    reveal(aggregate_of);
    let known = known_from(all, 0, Seq::empty());
    let d = distinct_from(known, 0, Seq::empty());
    lemma_known(all);
    lemma_distinct(known, 0, Seq::empty());
    assert forall|a: int| 0 <= a < d.len() implies all.contains(#[trigger] d[a]) && !(
    d[a] is Null) by {
        assert(known.contains(d[a]));
        let j = choose|j: int| 0 <= j < known.len() && known[j] == d[a];
        assert(!(known[j] is Null));
    }
    assert forall|k: int| 0 <= k < all.len() && !(#[trigger] all[k] is Null) implies has_key(
        d,
        all[k],
    ) by {
        let j = choose|j: int| 0 <= j < known.len() && known[j] == all[k];
        assert(has_key(d, known[j]));
    }
    lemma_all_known(d, 0, Seq::empty());
    assert(Seq::<ValueV>::empty() + d.skip(0) =~= d);
    d
}

proof fn lemma_all_known(vals: RowV, i: int, acc: RowV)
    requires
        0 <= i <= vals.len(),
        forall|a: int| 0 <= a < vals.len() ==> !(#[trigger] vals[a] is Null),
    ensures
        known_from(vals, i, acc) == acc + vals.skip(i),
    decreases vals.len() - i,
{
    if i < vals.len() {
        lemma_all_known(vals, i + 1, acc.push(vals[i]));
        assert(acc.push(vals[i]) + vals.skip(i + 1) =~= acc + vals.skip(i));
    } else {
        assert(acc + vals.skip(i) =~= acc);
    }
}

/// The integers of a list.
pub open spec fn ints(ns: Seq<i64>) -> RowV {
    Seq::new(ns.len(), |i: int| ValueV::Int(ns[i]))
}

/// The sum of numbers.
pub open spec fn total(ns: Seq<i64>) -> int
    decreases ns.len(),
{
    if ns.len() == 0 {
        0
    } else {
        total(ns.drop_last()) + ns.last()
    }
}

proof fn lemma_ints(ns: Seq<i64>)
    ensures
        known_from(ints(ns), 0, Seq::empty()) == ints(ns),
        all_ints(ints(ns)),
        int_sum(ints(ns)) == total(ns),
    decreases ns.len(),
{
    lemma_all_known(ints(ns), 0, Seq::empty());
    assert(Seq::<ValueV>::empty() + ints(ns).skip(0) =~= ints(ns));
    if ns.len() > 0 {
        lemma_ints(ns.drop_last());
        assert(ints(ns).drop_last() =~= ints(ns.drop_last()));
    }
}

/// The sum of integers is exact, or an error where it does not fit; the sum of nothing
/// is `NULL`.
pub proof fn law_sum_of_integers(t: RealsV, sep: Option<Seq<char>>, ns: Seq<i64>)
    ensures
        aggregate_of(t, AggFunc::Sum, false, sep, ints(ns)) == (if ns.len() == 0 {
            Ok::<ValueV, StopV>(ValueV::Null)
        } else if i64::MIN <= total(ns) <= i64::MAX {
            Ok(ValueV::Int(total(ns) as i64))
        } else {
            Err(sql_fail("integer out of range"@))
        }),
{
    reveal(aggregate_of);
    lemma_ints(ns);
}

/// The average of nothing is `NULL`. That of known values is their sum as doubles over
/// their number.
pub proof fn law_average(t: RealsV, sep: Option<Seq<char>>, all: RowV, sum: u64)
    requires
        all.len() > 0,
        forall|a: int| 0 <= a < all.len() ==> #[trigger] all[a] is Real,
        bits_of(t, AskV::Total(Seq::new(all.len(), |i: int| all[i]->Real_0))) == Ok::<u64, StopV>(
            sum,
        ),
    ensures
        aggregate_of(t, AggFunc::Sum, false, sep, all) == Ok::<ValueV, StopV>(ValueV::Real(sum)),
        aggregate_of(t, AggFunc::Avg, false, sep, all) == (match bits_of(
            t,
            AskV::Apply2(Binary::Over, sum, real_of_int(all.len() as i64)),
        ) {
            Ok(b) => Ok::<ValueV, StopV>(ValueV::Real(b)),
            Err(e) => Err(e),
        }),
        aggregate_of(t, AggFunc::Avg, false, sep, Seq::empty()) == Ok::<ValueV, StopV>(
            ValueV::Null,
        ),
{
    reveal(aggregate_of);
    lemma_all_known(all, 0, Seq::empty());
    assert(Seq::<ValueV>::empty() + all.skip(0) =~= all);
    lemma_doubles(t, all, 0, Seq::empty());
    assert(Seq::<u64>::empty() + Seq::new((all.len() - 0) as nat, |k: int| all[0 + k]->Real_0)
        =~= Seq::new(all.len(), |i: int| all[i]->Real_0));
    assert(all[0] is Real);
}

proof fn lemma_doubles(t: RealsV, all: RowV, i: int, acc: Seq<u64>)
    requires
        0 <= i <= all.len(),
        forall|a: int| 0 <= a < all.len() ==> #[trigger] all[a] is Real,
    ensures
        doubles_from(t, all, i, acc) == Ok::<Seq<u64>, StopV>(
            acc + Seq::new((all.len() - i) as nat, |k: int| all[i + k]->Real_0),
        ),
    decreases all.len() - i,
{
    let rest = Seq::new((all.len() - i) as nat, |k: int| all[i + k]->Real_0);
    if i < all.len() {
        assert(all[i] is Real);
        lemma_doubles(t, all, i + 1, acc.push(all[i]->Real_0));
        assert(acc.push(all[i]->Real_0) + Seq::new(
            (all.len() - i - 1) as nat,
            |k: int| all[i + 1 + k]->Real_0,
        ) =~= acc + rest);
    } else {
        assert(acc + rest =~= acc);
    }
}

proof fn lemma_best(vals: RowV, want: Order, i: int, best: ValueV)
    requires
        0 <= i <= vals.len(),
    ensures
        ({
            let b = best_from(vals, want, i, best);
            b == best || exists|k: int| i <= k < vals.len() && #[trigger] vals[k] == b
        }),
    decreases vals.len() - i,
{
    if i < vals.len() {
        lemma_best(vals, want, i + 1, vals[i]);
        lemma_best(vals, want, i + 1, best);
    }
}

/// The least and the greatest of a group are values of the group; without a known value
/// they are `NULL`.
pub proof fn law_extremes_are_members(t: RealsV, sep: Option<Seq<char>>, all: RowV, least: bool)
    ensures
        ({
            let f = if least {
                AggFunc::Min
            } else {
                AggFunc::Max
            };
            let r = aggregate_of(t, f, false, sep, all);
            &&& r is Ok
            &&& r->Ok_0 is Null <==> count_known(all) == 0
            &&& !(r->Ok_0 is Null) ==> all.contains(r->Ok_0)
        }),
{
    reveal(aggregate_of);
    let known = known_from(all, 0, Seq::empty());
    let want = if least {
        Order::Less
    } else {
        Order::Greater
    };
    lemma_known(all);
    if known.len() > 0 {
        lemma_best(known, want, 1, known[0]);
        let b = best_of(known, want);
        assert(known.contains(b)) by {
            if b == known[0] {
                assert(known.contains(known[0]));
            } else {
                let k = choose|k: int| 1 <= k < known.len() && #[trigger] known[k] == b;
                assert(known.contains(known[k]));
            }
        }
        let j = choose|j: int| 0 <= j < known.len() && known[j] == b;
        assert(!(known[j] is Null));
    }
}

/// A rank by which the values of a list compare.
pub open spec fn ranked(vals: RowV, rank: spec_fn(ValueV) -> int) -> bool {
    forall|a: int, b: int|
        0 <= a < vals.len() && 0 <= b < vals.len() ==> value_order(
            #[trigger] vals[a],
            #[trigger] vals[b],
        ) == Some(
            if rank(vals[a]) < rank(vals[b]) {
                Order::Less
            } else if rank(vals[a]) > rank(vals[b]) {
                Order::Greater
            } else {
                Order::Equal
            },
        )
}

proof fn lemma_best_ranked(
    vals: RowV,
    want: Order,
    rank: spec_fn(ValueV) -> int,
    i: int,
    at: int,
)
    requires
        want != Order::Equal,
        0 <= at < vals.len(),
        0 <= i <= vals.len(),
        ranked(vals, rank),
    ensures
        ({
            let b = best_from(vals, want, i, vals[at]);
            let sign: int = if want == Order::Less {
                1
            } else {
                -1
            };
            &&& sign * rank(b) <= sign * rank(vals[at])
            &&& forall|k: int| i <= k < vals.len() ==> sign * rank(b) <= sign * rank(
                #[trigger] vals[k],
            )
        }),
    decreases vals.len() - i,
{
    if i < vals.len() {
        assert(value_order(vals[i], vals[at]) == Some(
            if rank(vals[i]) < rank(vals[at]) {
                Order::Less
            } else if rank(vals[i]) > rank(vals[at]) {
                Order::Greater
            } else {
                Order::Equal
            },
        ));
        if value_order(vals[i], vals[at]) == Some(want) {
            lemma_best_ranked(vals, want, rank, i + 1, i);
        } else {
            lemma_best_ranked(vals, want, rank, i + 1, at);
        }
    }
}

/// `MIN` is no greater, and `MAX` no less, than any value of the group, for values that
/// compare as their ranks do.
pub proof fn law_extremes_are_extreme(
    t: RealsV,
    sep: Option<Seq<char>>,
    all: RowV,
    rank: spec_fn(ValueV) -> int,
    k: int,
)
    requires
        0 <= k < all.len(),
        forall|a: int| 0 <= a < all.len() ==> !(#[trigger] all[a] is Null),
        ranked(all, rank),
    ensures
        rank(aggregate_of(t, AggFunc::Min, false, sep, all)->Ok_0) <= rank(all[k]),
        rank(aggregate_of(t, AggFunc::Max, false, sep, all)->Ok_0) >= rank(all[k]),
{
    reveal(aggregate_of);
    lemma_all_known(all, 0, Seq::empty());
    assert(Seq::<ValueV>::empty() + all.skip(0) =~= all);
    lemma_best_ranked(all, Order::Less, rank, 1, 0);
    lemma_best_ranked(all, Order::Greater, rank, 1, 0);
    assert(all[k] == all[k]);
}

/// The texts of a list.
pub open spec fn texts(ts: Seq<Seq<char>>) -> RowV {
    Seq::new(ts.len(), |i: int| ValueV::Text(ts[i]))
}

/// Texts one behind the other, with a separator between them.
pub open spec fn strung(ts: Seq<Seq<char>>, sep: Seq<char>) -> Seq<char>
    decreases ts.len(),
{
    if ts.len() == 0 {
        Seq::empty()
    } else if ts.len() == 1 {
        ts[0]
    } else {
        strung(ts.drop_last(), sep) + sep + ts.last()
    }
}

proof fn lemma_separated(t: RealsV, ts: Seq<Seq<char>>, sep: Seq<char>, i: int)
    requires
        0 <= i <= ts.len(),
    ensures
        separated_from(t, texts(ts), sep, i, strung(ts.take(i), sep)) == Ok::<Seq<char>, StopV>(
            strung(ts, sep),
        ),
    decreases ts.len() - i,
{
    if i < ts.len() {
        let next = ts.take(i + 1);
        assert(next.drop_last() =~= ts.take(i));
        assert(next.last() == ts[i]);
        assert(texts(ts)[i] == ValueV::Text(ts[i]));
        if i == 0 {
            assert(strung(ts.take(0), sep) + ts[0] =~= ts[0]);
            assert(next[0] == ts[0]);
        }
        lemma_separated(t, ts, sep, i + 1);
    } else {
        assert(ts.take(i) =~= ts);
    }
}

/// `GROUP_CONCAT` strings the texts of a group together in their order, with the
/// separator, or a comma, between each two.
pub proof fn law_group_concat(t: RealsV, sep: Option<Seq<char>>, ts: Seq<Seq<char>>)
    ensures
        aggregate_of(t, AggFunc::GroupConcat, false, sep, texts(ts)) == (if ts.len() == 0 {
            Ok::<ValueV, StopV>(ValueV::Null)
        } else {
            Ok(
                ValueV::Text(
                    strung(
                        ts,
                        match sep {
                            Some(s) => s,
                            None => ","@,
                        },
                    ),
                ),
            )
        }),
{
    reveal(aggregate_of);
    lemma_all_known(texts(ts), 0, Seq::empty());
    assert(Seq::<ValueV>::empty() + texts(ts).skip(0) =~= texts(ts));
    let s = match sep {
        Some(s) => s,
        None => ","@,
    };
    lemma_separated(t, ts, s, 0);
    assert(ts.take(0) =~= Seq::<Seq<char>>::empty());
    assert(strung(ts.take(0), s) =~= Seq::<char>::empty());
}

proof fn lemma_rows_valued(e: ExprV, rows: Seq<RowV>, c: CtxV, env: EnvV, vals: RowV, i: int)
    requires
        0 <= i <= rows.len(),
        vals.len() == rows.len(),
        forall|k: int|
            0 <= k < rows.len() ==> ev(e, member_ctx(c, #[trigger] rows[k], k), env) == Ok::<
                ValueV,
                StopV,
            >(vals[k]),
    ensures
        ev_rows(e, rows, i, vals.take(i), c, env) == Ok::<RowV, StopV>(vals),
    decreases rows.len() - i,
{
    if i < rows.len() {
        assert(ev(e, member_ctx(c, rows[i], i), env) == Ok::<ValueV, StopV>(vals[i]));
        assert(vals.take(i).push(vals[i]) =~= vals.take(i + 1));
        lemma_rows_valued(e, rows, c, env, vals, i + 1);
    } else {
        assert(vals.take(i) =~= vals);
    }
}

/// `COUNT(*)` counts the rows of the group. An aggregate of an expression is that over
/// the values that it has in the rows, one for each.
pub proof fn law_aggregates_go_over_the_rows(
    e: ExprV,
    func: AggFunc,
    distinct: bool,
    rows: Seq<RowV>,
    c: CtxV,
    env: EnvV,
    vals: RowV,
)
    requires
        c.group == Some(rows),
        vals.len() == rows.len(),
        forall|k: int|
            0 <= k < rows.len() ==> ev(
                e,
                member_ctx(c, #[trigger] rows[k], k),
                within(env, IN_GROUP, c.tick),
            ) == Ok::<ValueV, StopV>(vals[k]),
    ensures
        ev(
            ExprV::Aggregate { func, arg: AggArgV::Expr(Box::new(e)), distinct, sep: None },
            c,
            env,
        ) == aggregate_of(env.reals, func, distinct, None, vals),
        ev(
            ExprV::Aggregate { func: AggFunc::Count, arg: AggArgV::Star, distinct, sep: None },
            c,
            env,
        ) == Ok::<ValueV, StopV>(ValueV::Int(rows.len() as i64)),
{
    lemma_rows_valued(e, rows, c, within(env, IN_GROUP, c.tick), vals, 0);
    assert(vals.take(0) =~= Seq::<ValueV>::empty());
}

} // verus!
