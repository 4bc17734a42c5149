//! Which rows joins give, and which they keep.
use vstd::prelude::*;
use crate::asks::StopV;
use crate::env::EnvV;
use crate::eval::{cell, ev, rel_ctx, resolved, RelColV};
use crate::exprlaws::law_a_name_is_one_column;
use crate::relation::{
    joined, joins, met_by, met_from, nested_from, nulls, pair_tick, pairs_equal, side_by_side,
    unmet_from, using_from, JoinV, MetV, RelationV,
};
use crate::sql::{ExprV, JoinKind};
use crate::text::same_name;
use crate::value::{truth, value_eq, RowV, ValueV};

verus! {

/// Whether outer row `i` and inner row `k` join.
pub open spec fn pair_joins(
    outer: Seq<RowV>,
    inner: Seq<RowV>,
    j: JoinV,
    swapped: bool,
    env: EnvV,
    i: int,
    k: int,
) -> bool {
    &&& 0 <= i < outer.len()
    &&& 0 <= k < inner.len()
    &&& joins(
        side_by_side(outer[i], inner[k], swapped),
        j,
        pair_tick(i, k, inner.len() as int),
        env,
    ) == Ok::<bool, StopV>(true)
}

/// Whether a row is two rows that join, side by side.
pub open spec fn is_pair(
    outer: Seq<RowV>,
    inner: Seq<RowV>,
    j: JoinV,
    swapped: bool,
    env: EnvV,
    row: RowV,
) -> bool {
    exists|i: int, k: int|
        #[trigger] pair_joins(outer, inner, j, swapped, env, i, k) && row == side_by_side(
            outer[i],
            inner[k],
            swapped,
        )
}

/// The rows of `out` behind those of `acc`, all of them pairs.
spec fn adds_pairs(
    outer: Seq<RowV>,
    inner: Seq<RowV>,
    j: JoinV,
    swapped: bool,
    env: EnvV,
    acc: Seq<RowV>,
    out: Seq<RowV>,
) -> bool {
    &&& acc.len() <= out.len()
    &&& forall|n: int| 0 <= n < acc.len() ==> out[n] == #[trigger] acc[n]
    &&& forall|n: int|
        acc.len() <= n < out.len() ==> is_pair(outer, inner, j, swapped, env, #[trigger] out[n])
}

/// The row stands in `out`, on the side where outer rows stand.
pub open spec fn stands_in(out: Seq<RowV>, row: RowV, swapped: bool) -> bool {
    exists|n: int| 0 <= n < out.len() && on_side(#[trigger] out[n], row, swapped)
}

pub open spec fn on_side(whole: RowV, row: RowV, swapped: bool) -> bool {
    &&& whole.len() >= row.len()
    &&& if swapped {
        whole.skip(whole.len() - row.len()) == row
    } else {
        whole.take(row.len() as int) == row
    }
}

proof fn lemma_on_side(a: RowV, b: RowV, swapped: bool)
    ensures
        on_side(side_by_side(a, b, swapped), a, swapped),
        on_side(side_by_side(a, b, swapped), b, !swapped),
{
    let w = side_by_side(a, b, swapped);
    if swapped {
        assert(w.skip(w.len() - a.len()) =~= a);
        assert(w.take(b.len() as int) =~= b);
    } else {
        assert(w.take(a.len() as int) =~= a);
        assert(w.skip(w.len() - b.len()) =~= b);
    }
}

proof fn lemma_contains_on(acc: Seq<RowV>, out: Seq<RowV>, x: RowV)
    requires
        acc.len() <= out.len(),
        forall|n: int| 0 <= n < acc.len() ==> out[n] == #[trigger] acc[n],
        acc.contains(x),
    ensures
        out.contains(x),
{
    let n = choose|n: int| 0 <= n < acc.len() && acc[n] == x;
    assert(out[n] == acc[n]);
}

proof fn lemma_met(
    outer: Seq<RowV>,
    i: int,
    inner: Seq<RowV>,
    j: JoinV,
    swapped: bool,
    env: EnvV,
    k: int,
    acc: MetV,
)
    requires
        0 <= i < outer.len(),
        0 <= k,
        met_from(outer[i], i, inner, j, swapped, env, k, acc) is Ok,
    ensures
        ({
            let m = met_from(outer[i], i, inner, j, swapped, env, k, acc)->Ok_0;
            &&& adds_pairs(outer, inner, j, swapped, env, acc.rows, m.rows)
            &&& forall|x: int|
                k <= x && #[trigger] pair_joins(outer, inner, j, swapped, env, i, x)
                    ==> m.rows.contains(side_by_side(outer[i], inner[x], swapped)) && m.any
            &&& acc.any ==> m.any
            &&& m.any && !acc.any ==> exists|x: int|
                k <= x && #[trigger] pair_joins(outer, inner, j, swapped, env, i, x)
        }),
    decreases inner.len() - k,
{
    if k < inner.len() {
        let row = side_by_side(outer[i], inner[k], swapped);
        let m = met_from(outer[i], i, inner, j, swapped, env, k, acc)->Ok_0;
        if joins(row, j, pair_tick(i, k, inner.len() as int), env) == Ok::<bool, StopV>(true) {
            let next = MetV { rows: acc.rows.push(row), any: true };
            assert(pair_joins(outer, inner, j, swapped, env, i, k));
            assert(is_pair(outer, inner, j, swapped, env, row));
            lemma_met(outer, i, inner, j, swapped, env, k + 1, next);
            assert(adds_pairs(outer, inner, j, swapped, env, acc.rows, m.rows)) by {
                assert forall|n: int| 0 <= n < acc.rows.len() implies m.rows[n]
                    == #[trigger] acc.rows[n] by {
                    assert(next.rows[n] == acc.rows[n]);
                }
                assert(m.rows[acc.rows.len() as int] == next.rows[acc.rows.len() as int]);
            }
            assert(m.rows.contains(row)) by {
                assert(next.rows[acc.rows.len() as int] == row);
                lemma_contains_on(next.rows, m.rows, row);
            }
        } else {
            lemma_met(outer, i, inner, j, swapped, env, k + 1, acc);
            assert(!pair_joins(outer, inner, j, swapped, env, i, k));
        }
    }
}

/// What a nested loop leaves.
spec fn nested_ok(
    outer: Seq<RowV>,
    inner: Seq<RowV>,
    j: JoinV,
    swapped: bool,
    pad: Option<RowV>,
    env: EnvV,
    i: int,
    acc: Seq<RowV>,
    out: Seq<RowV>,
) -> bool {
    &&& acc.len() <= out.len()
    &&& forall|n: int| 0 <= n < acc.len() ==> out[n] == #[trigger] acc[n]
    &&& pad is None ==> adds_pairs(outer, inner, j, swapped, env, acc, out)
    &&& forall|a: int, x: int|
        i <= a && #[trigger] pair_joins(outer, inner, j, swapped, env, a, x) ==> out.contains(
            side_by_side(outer[a], inner[x], swapped),
        )
    &&& pad is Some ==> forall|a: int|
        i <= a < outer.len() ==> stands_in(out, #[trigger] outer[a], swapped)
}

proof fn lemma_nested(
    outer: Seq<RowV>,
    inner: Seq<RowV>,
    j: JoinV,
    swapped: bool,
    pad: Option<RowV>,
    env: EnvV,
    i: int,
    acc: Seq<RowV>,
)
    requires
        0 <= i <= outer.len(),
        nested_from(outer, inner, j, swapped, pad, env, i, acc) is Ok,
    ensures
        nested_ok(
            outer,
            inner,
            j,
            swapped,
            pad,
            env,
            i,
            acc,
            nested_from(outer, inner, j, swapped, pad, env, i, acc)->Ok_0,
        ),
    decreases outer.len() - i,
{
    if i < outer.len() {
        let start = MetV { rows: acc, any: false };
        let m = met_from(outer[i], i, inner, j, swapped, env, 0, start)->Ok_0;
        let next = if m.any || pad is None {
            m.rows
        } else {
            m.rows.push(side_by_side(outer[i], pad->Some_0, swapped))
        };
        let out = nested_from(outer, inner, j, swapped, pad, env, i, acc)->Ok_0;
        lemma_met(outer, i, inner, j, swapped, env, 0, start);
        lemma_nested(outer, inner, j, swapped, pad, env, i + 1, next);
        assert forall|n: int| 0 <= n < acc.len() implies out[n] == #[trigger] acc[n] by {
            assert(m.rows[n] == acc[n]);
            assert(next[n] == acc[n]);
        }
        assert forall|a: int, x: int|
            i <= a && #[trigger] pair_joins(outer, inner, j, swapped, env, a, x) implies out.contains(
            side_by_side(outer[a], inner[x], swapped),
        ) by {
            if a == i {
                let row = side_by_side(outer[i], inner[x], swapped);
                let n = choose|n: int| 0 <= n < m.rows.len() && m.rows[n] == row;
                assert(next[n] == row);
                assert(next.contains(row));
                lemma_contains_on(next, out, row);
            }
        }
        if pad is None {
            assert forall|n: int| acc.len() <= n < out.len() implies is_pair(
                outer,
                inner,
                j,
                swapped,
                env,
                #[trigger] out[n],
            ) by {
                if n < next.len() {
                    assert(out[n] == next[n]);
                    assert(is_pair(outer, inner, j, swapped, env, m.rows[n]));
                }
            }
        } else {
            assert forall|a: int| i <= a < outer.len() implies stands_in(
                out,
                #[trigger] outer[a],
                swapped,
            ) by {
                if a == i {
                    if m.any {
                        let x = choose|x: int|
                            0 <= x && #[trigger] pair_joins(outer, inner, j, swapped, env, i, x);
                        let row = side_by_side(outer[i], inner[x], swapped);
                        lemma_on_side(outer[i], inner[x], swapped);
                        lemma_contains_on(next, out, row);
                        let n = choose|n: int| 0 <= n < out.len() && out[n] == row;
                        assert(on_side(out[n], outer[i], swapped));
                    } else {
                        let n = m.rows.len() as int;
                        lemma_on_side(outer[i], pad->Some_0, swapped);
                        assert(out[n] == next[n]);
                        assert(on_side(out[n], outer[i], swapped));
                    }
                }
            }
        }
    }
}

/// An inner join gives the pairs of rows that join, and nothing else.
pub proof fn law_inner_join(
    l: RelationV,
    r: RelationV,
    on: Option<ExprV>,
    using: Seq<Seq<char>>,
    env: EnvV,
    j: JoinV,
)
    requires
        joined(l, r, JoinKind::Inner, on, using, env) is Ok,
        using_from(l.cols, r.cols, using, 0, Seq::empty()) == Ok::<Seq<(usize, usize)>, StopV>(
            j.pairs,
        ),
        j.cols == l.cols + r.cols,
        j.on == on,
    ensures
        ({
            let out = joined(l, r, JoinKind::Inner, on, using, env)->Ok_0.rows;
            &&& forall|n: int|
                0 <= n < out.len() ==> is_pair(l.rows, r.rows, j, false, env, #[trigger] out[n])
            &&& forall|i: int, k: int| #[trigger]
                pair_joins(l.rows, r.rows, j, false, env, i, k) ==> out.contains(
                    l.rows[i] + r.rows[k],
                )
        }),
{
    lemma_nested(l.rows, r.rows, j, false, None, env, 0, Seq::empty());
    let out = joined(l, r, JoinKind::Inner, on, using, env)->Ok_0.rows;
    assert(out == nested_from(l.rows, r.rows, j, false, None, env, 0, Seq::empty())->Ok_0);
    assert forall|i: int, k: int| #[trigger]
        pair_joins(l.rows, r.rows, j, false, env, i, k) implies out.contains(
        l.rows[i] + r.rows[k],
    ) by {
        assert(out.contains(side_by_side(l.rows[i], r.rows[k], false)));
    }
}

proof fn lemma_unmet(
    l: Seq<RowV>,
    r: Seq<RowV>,
    j: JoinV,
    pad: RowV,
    env: EnvV,
    k: int,
    acc: Seq<RowV>,
)
    requires
        0 <= k <= r.len(),
    ensures
        ({
            let out = unmet_from(l, r, j, pad, env, k, acc);
            &&& acc.len() <= out.len()
            &&& forall|n: int| 0 <= n < acc.len() ==> out[n] == #[trigger] acc[n]
            &&& forall|x: int|
                k <= x < r.len() && !met_by(l, r, j, env, x, l.len() as int) ==> stands_in(
                    out,
                    #[trigger] r[x],
                    true,
                )
        }),
    decreases r.len() - k,
{
    if k < r.len() {
        let out = unmet_from(l, r, j, pad, env, k, acc);
        if met_by(l, r, j, env, k, l.len() as int) {
            lemma_unmet(l, r, j, pad, env, k + 1, acc);
        } else {
            let row = pad + r[k];
            let next = acc.push(row);
            lemma_unmet(l, r, j, pad, env, k + 1, next);
            assert forall|n: int| 0 <= n < acc.len() implies out[n] == #[trigger] acc[n] by {
                assert(next[n] == acc[n]);
            }
            let n = acc.len() as int;
            assert(out[n] == next[n]);
            lemma_on_side(pad, r[k], false);
            assert(on_side(out[n], r[k], true));
        }
    }
}

/// An outer join loses no row of the side it keeps: a left join none on the left, a
/// right join none on the right, a full join none at all.
pub proof fn law_outer_joins_keep_rows(
    l: RelationV,
    r: RelationV,
    kind: JoinKind,
    on: Option<ExprV>,
    using: Seq<Seq<char>>,
    env: EnvV,
)
    requires
        joined(l, r, kind, on, using, env) is Ok,
    ensures
        ({
            let out = joined(l, r, kind, on, using, env)->Ok_0.rows;
            &&& kind == JoinKind::Left || kind == JoinKind::Full ==> forall|i: int|
                0 <= i < l.rows.len() ==> stands_in(out, #[trigger] l.rows[i], false)
            &&& kind == JoinKind::Right || kind == JoinKind::Full ==> forall|k: int|
                0 <= k < r.rows.len() ==> stands_in(out, #[trigger] r.rows[k], true)
        }),
{
    let pairs = using_from(l.cols, r.cols, using, 0, Seq::empty())->Ok_0;
    let j = JoinV { cols: l.cols + r.cols, on, pairs };
    let null_l = nulls(l.cols.len());
    let null_r = nulls(r.cols.len());
    let out = joined(l, r, kind, on, using, env)->Ok_0.rows;
    let none = Seq::<RowV>::empty();
    match kind {
        JoinKind::Left => {
            lemma_nested(l.rows, r.rows, j, false, Some(null_r), env, 0, none);
        },
        JoinKind::Right => {
            lemma_nested(r.rows, l.rows, j, true, Some(null_l), env, 0, none);
        },
        JoinKind::Full => {
            lemma_nested(l.rows, r.rows, j, false, Some(null_r), env, 0, none);
            let first = nested_from(l.rows, r.rows, j, false, Some(null_r), env, 0, none)->Ok_0;
            lemma_unmet(l.rows, r.rows, j, null_l, env, 0, first);
            assert forall|i: int| 0 <= i < l.rows.len() implies stands_in(
                out,
                #[trigger] l.rows[i],
                false,
            ) by {
                assert(stands_in(first, l.rows[i], false));
                let n = choose|n: int|
                    0 <= n < first.len() && on_side(#[trigger] first[n], l.rows[i], false);
                assert(out[n] == first[n]);
                assert(on_side(out[n], l.rows[i], false));
            }
            assert forall|k: int| 0 <= k < r.rows.len() implies stands_in(
                out,
                #[trigger] r.rows[k],
                true,
            ) by {
                if met_by(l.rows, r.rows, j, env, k, l.rows.len() as int) {
                    let i = choose|i: int|
                        0 <= i < l.rows.len() && joins(
                            #[trigger] l.rows[i] + r.rows[k],
                            j,
                            pair_tick(i, k, r.rows.len() as int),
                            env,
                        ) == Ok::<bool, StopV>(true);
                    assert(pair_joins(l.rows, r.rows, j, false, env, i, k));
                    let row = side_by_side(l.rows[i], r.rows[k], false);
                    lemma_contains_on(first, out, row);
                    let n = choose|n: int| 0 <= n < out.len() && out[n] == row;
                    lemma_on_side(l.rows[i], r.rows[k], false);
                    assert(on_side(out[n], r.rows[k], true));
                }
            }
        },
        _ => {},
    }
}

// ---- what joins two rows --------------------------------------------------------------------------

proof fn lemma_pairs_equal(row: RowV, pairs: Seq<(usize, usize)>, p: int)
    requires
        0 <= p <= pairs.len(),
    ensures
        pairs_equal(row, pairs, p) <==> forall|x: int|
            p <= x < pairs.len() ==> value_eq(
                cell(row, (#[trigger] pairs[x]).0 as int),
                cell(row, pairs[x].1 as int),
            ) == Some(true),
    decreases pairs.len() - p,
{
    if p < pairs.len() {
        lemma_pairs_equal(row, pairs, p + 1);
    }
}

/// Two rows that join are equal, and known to be, in every one of the `USING` columns,
/// and what stands behind `ON` is true of them. Without `ON`, rows that are equal in all
/// the `USING` columns join.
pub proof fn law_joined_rows_agree(row: RowV, j: JoinV, tick: u64, env: EnvV)
    ensures
        ({
            let agree = forall|p: int|
                0 <= p < j.pairs.len() ==> value_eq(
                    cell(row, (#[trigger] j.pairs[p]).0 as int),
                    cell(row, j.pairs[p].1 as int),
                ) == Some(true);
            let met = joins(row, j, tick, env) == Ok::<bool, StopV>(true);
            &&& met ==> agree
            &&& j.on is None ==> (met <==> agree)
            &&& j.on is Some && met ==> (ev(j.on->0, rel_ctx(row, j.cols, tick), env) matches Ok(v)
                && truth(v) == Some(true))
            &&& j.on is Some && agree && (ev(
                j.on->0,
                rel_ctx(row, j.cols, tick),
                env,
            ) matches Ok(v) && truth(v) == Some(true)) ==> met
        }),
{
    lemma_pairs_equal(row, j.pairs, 0);
}

proof fn lemma_using(
    l: Seq<RelColV>,
    r: Seq<RelColV>,
    using: Seq<Seq<char>>,
    i: int,
    acc: Seq<(usize, usize)>,
)
    requires
        0 <= i <= using.len(),
        l.len() + r.len() <= usize::MAX,
        acc.len() == i,
        forall|x: int|
            0 <= x < i ==> named_pair(l, r, #[trigger] using[x], acc[x]),
        using_from(l, r, using, i, acc) is Ok,
    ensures
        ({
            let pairs = using_from(l, r, using, i, acc)->Ok_0;
            &&& pairs.len() == using.len()
            &&& forall|x: int|
                0 <= x < using.len() ==> named_pair(l, r, #[trigger] using[x], pairs[x])
        }),
    decreases using.len() - i,
{
    if i < using.len() {
        let a = resolved(l, None, using[i])->Ok_0;
        let b = resolved(r, None, using[i])->Ok_0;
        lemma_resolved(l, using[i]);
        lemma_resolved(r, using[i]);
        let next = acc.push((a, (l.len() + b) as usize));
        assert forall|x: int| 0 <= x < i + 1 implies named_pair(l, r, #[trigger] using[x], next[x]) by {
            if x < i {
                assert(next[x] == acc[x]);
            }
        }
        lemma_using(l, r, using, i + 1, next);
    }
}

proof fn lemma_resolved(cols: Seq<RelColV>, name: Seq<char>)
    requires
        cols.len() <= usize::MAX,
        resolved(cols, None, name) is Ok,
    ensures
        resolved(cols, None, name)->Ok_0 < cols.len(),
        same_name(cols[resolved(cols, None, name)->Ok_0 as int].name, name),
{
    law_a_name_is_one_column(cols, None, name);
}

/// Whether a pair of places is that of a column of the left and one of the right with
/// a name, in the rows side by side.
pub open spec fn named_pair(
    l: Seq<RelColV>,
    r: Seq<RelColV>,
    name: Seq<char>,
    pair: (usize, usize),
) -> bool {
    &&& pair.0 < l.len()
    &&& same_name(l[pair.0 as int].name, name)
    &&& l.len() <= pair.1 < l.len() + r.len()
    &&& same_name(r[pair.1 - l.len()].name, name)
}

/// `USING` compares, for each name, the column of that name on the left with that on
/// the right.
pub proof fn law_using_pairs_columns(l: RelationV, r: RelationV, using: Seq<Seq<char>>)
    requires
        using_from(l.cols, r.cols, using, 0, Seq::empty()) is Ok,
        l.cols.len() + r.cols.len() <= usize::MAX,
    ensures
        ({
            let pairs = using_from(l.cols, r.cols, using, 0, Seq::empty())->Ok_0;
            &&& pairs.len() == using.len()
            &&& forall|x: int|
                0 <= x < using.len() ==> named_pair(l.cols, r.cols, #[trigger] using[x], pairs[x])
        }),
{
    lemma_using(l.cols, r.cols, using, 0, Seq::empty());
}

// ---- the rows of a join, one by one ---------------------------------------------------------------

/// Where a row of a join comes from: the outer row, and the inner one or the pad.
pub type Origin = (int, Option<int>);

/// Whether one origin comes before another: by the outer row, then by the inner.
pub open spec fn comes_before(a: Origin, b: Origin) -> bool {
    a.0 < b.0 || (a.0 == b.0 && a.1 is Some && b.1 is Some && a.1->0 < b.1->0)
}

pub open spec fn meets_none(
    outer: Seq<RowV>,
    inner: Seq<RowV>,
    j: JoinV,
    swapped: bool,
    env: EnvV,
    i: int,
) -> bool {
    forall|k: int| !(#[trigger] pair_joins(outer, inner, j, swapped, env, i, k))
}

/// Whether an origin is that of a row: a pair that joins, or an outer row that joins
/// with none, beside the pad.
pub open spec fn is_from(
    outer: Seq<RowV>,
    inner: Seq<RowV>,
    j: JoinV,
    swapped: bool,
    pad: Option<RowV>,
    env: EnvV,
    o: Origin,
    row: RowV,
) -> bool {
    match o.1 {
        Some(k) => pair_joins(outer, inner, j, swapped, env, o.0, k) && row == side_by_side(
            outer[o.0],
            inner[k],
            swapped,
        ),
        None => 0 <= o.0 < outer.len() && pad is Some && meets_none(
            outer,
            inner,
            j,
            swapped,
            env,
            o.0,
        ) && row == side_by_side(outer[o.0], pad->0, swapped),
    }
}

/// The rows of a nested loop with their origins, as far as outer row `i` and inner row
/// `k` of it.
spec fn traced(
    outer: Seq<RowV>,
    inner: Seq<RowV>,
    j: JoinV,
    swapped: bool,
    pad: Option<RowV>,
    env: EnvV,
    i: int,
    k: int,
    out: Seq<RowV>,
    from: Seq<Origin>,
) -> bool {
    &&& from.len() == out.len()
    &&& forall|n: int|
        0 <= n < out.len() ==> is_from(
            outer,
            inner,
            j,
            swapped,
            pad,
            env,
            #[trigger] from[n],
            out[n],
        ) && comes_before(from[n], (i, Some(k)))
    &&& forall|m: int, n: int|
        0 <= m < n < from.len() ==> comes_before(#[trigger] from[m], #[trigger] from[n])
    &&& forall|a: int, b: int| #[trigger]
        pair_joins(outer, inner, j, swapped, env, a, b) && (a < i || (a == i && b < k))
            ==> from.contains((a, Some(b)))
    &&& pad is Some ==> forall|a: int|
        0 <= a < i && #[trigger] meets_none(outer, inner, j, swapped, env, a) ==> from.contains(
            (a, None::<int>),
        )
}

proof fn lemma_traced_push(
    outer: Seq<RowV>,
    inner: Seq<RowV>,
    j: JoinV,
    swapped: bool,
    pad: Option<RowV>,
    env: EnvV,
    i: int,
    k: int,
    out: Seq<RowV>,
    from: Seq<Origin>,
    o: Origin,
    row: RowV,
    i2: int,
    k2: int,
)
    requires
        traced(outer, inner, j, swapped, pad, env, i, k, out, from),
        is_from(outer, inner, j, swapped, pad, env, o, row),
        forall|n: int| 0 <= n < from.len() ==> comes_before(#[trigger] from[n], o),
        comes_before(o, (i2, Some(k2))),
        comes_before((i, Some(k)), (i2, Some(k2))) || (i, k) == (i2, k2),
        forall|a: int, b: int| #[trigger]
            pair_joins(outer, inner, j, swapped, env, a, b) && (a < i2 || (a == i2 && b < k2))
                && !(a < i || (a == i && b < k)) ==> o == (a, Some(b)),
        pad is Some ==> forall|a: int|
            i <= a < i2 && #[trigger] meets_none(outer, inner, j, swapped, env, a) ==> o == (
                a,
                None::<int>,
            ),
    ensures
        traced(outer, inner, j, swapped, pad, env, i2, k2, out.push(row), from.push(o)),
{
    let more = from.push(o);
    let rows = out.push(row);
    assert(more[from.len() as int] == o);
    assert forall|n: int| 0 <= n < rows.len() implies is_from(
        outer,
        inner,
        j,
        swapped,
        pad,
        env,
        #[trigger] more[n],
        rows[n],
    ) && comes_before(more[n], (i2, Some(k2))) by {
        if n < out.len() {
            assert(more[n] == from[n]);
        }
    }
    assert forall|m: int, n: int| 0 <= m < n < more.len() implies comes_before(
        #[trigger] more[m],
        #[trigger] more[n],
    ) by {
        assert(more[m] == from[m]);
        if n < from.len() {
            assert(more[n] == from[n]);
        }
    }
    assert forall|x: Origin| from.contains(x) implies more.contains(x) by {
        let n = choose|n: int| 0 <= n < from.len() && from[n] == x;
        assert(more[n] == x);
    }
    assert forall|a: int, b: int| #[trigger]
        pair_joins(outer, inner, j, swapped, env, a, b) && (a < i2 || (a == i2 && b
            < k2)) implies more.contains((a, Some(b))) by {
        if a < i || (a == i && b < k) {
            assert(from.contains((a, Some(b))));
        }
    }
    if pad is Some {
        assert forall|a: int| 0 <= a < i2 && #[trigger] meets_none(
            outer,
            inner,
            j,
            swapped,
            env,
            a,
        ) implies more.contains((a, None::<int>)) by {
            if a < i {
                assert(from.contains((a, None::<int>)));
            }
        }
    }
}

proof fn lemma_traced_met(
    outer: Seq<RowV>,
    inner: Seq<RowV>,
    j: JoinV,
    swapped: bool,
    pad: Option<RowV>,
    env: EnvV,
    i: int,
    k: int,
    acc: MetV,
    from: Seq<Origin>,
) -> (all: Seq<Origin>)
    requires
        0 <= i < outer.len(),
        0 <= k <= inner.len(),
        traced(outer, inner, j, swapped, pad, env, i, k, acc.rows, from),
        acc.any <==> exists|b: int| b < k && #[trigger] pair_joins(outer, inner, j, swapped, env, i, b),
        met_from(outer[i], i, inner, j, swapped, env, k, acc) is Ok,
    ensures
        ({
            let m = met_from(outer[i], i, inner, j, swapped, env, k, acc)->Ok_0;
            &&& traced(
                outer,
                inner,
                j,
                swapped,
                pad,
                env,
                i,
                inner.len() as int,
                m.rows,
                all,
            )
            &&& m.any <==> !meets_none(outer, inner, j, swapped, env, i)
        }),
    decreases inner.len() - k,
{
    if k < inner.len() {
        let row = side_by_side(outer[i], inner[k], swapped);
        if joins(row, j, pair_tick(i, k, inner.len() as int), env) == Ok::<bool, StopV>(true) {
            assert(pair_joins(outer, inner, j, swapped, env, i, k));
            let o = (i, Some(k));
            lemma_traced_push(
                outer,
                inner,
                j,
                swapped,
                pad,
                env,
                i,
                k,
                acc.rows,
                from,
                o,
                row,
                i,
                k + 1,
            );
            lemma_traced_met(
                outer,
                inner,
                j,
                swapped,
                pad,
                env,
                i,
                k + 1,
                MetV { rows: acc.rows.push(row), any: true },
                from.push(o),
            )
        } else {
            assert(!pair_joins(outer, inner, j, swapped, env, i, k));
            lemma_traced_met(outer, inner, j, swapped, pad, env, i, k + 1, acc, from)
        }
    } else {
        from
    }
}

proof fn lemma_traced(
    outer: Seq<RowV>,
    inner: Seq<RowV>,
    j: JoinV,
    swapped: bool,
    pad: Option<RowV>,
    env: EnvV,
    i: int,
    acc: Seq<RowV>,
    from: Seq<Origin>,
) -> (all: Seq<Origin>)
    requires
        0 <= i <= outer.len(),
        traced(outer, inner, j, swapped, pad, env, i, 0, acc, from),
        nested_from(outer, inner, j, swapped, pad, env, i, acc) is Ok,
    ensures
        traced(
            outer,
            inner,
            j,
            swapped,
            pad,
            env,
            outer.len() as int,
            0,
            nested_from(outer, inner, j, swapped, pad, env, i, acc)->Ok_0,
            all,
        ),
    decreases outer.len() - i,
{
    if i < outer.len() {
        let start = MetV { rows: acc, any: false };
        let m = met_from(outer[i], i, inner, j, swapped, env, 0, start)->Ok_0;
        let n = inner.len() as int;
        let mid = lemma_traced_met(outer, inner, j, swapped, pad, env, i, 0, start, from);
        if m.any || pad is None {
            assert(traced(outer, inner, j, swapped, pad, env, i + 1, 0, m.rows, mid));
            lemma_traced(outer, inner, j, swapped, pad, env, i + 1, m.rows, mid)
        } else {
            let row = side_by_side(outer[i], pad->0, swapped);
            let o = (i, None::<int>);
            assert forall|x: int| 0 <= x < mid.len() implies comes_before(#[trigger] mid[x], o) by {
                assert(is_from(outer, inner, j, swapped, pad, env, mid[x], m.rows[x]));
                assert(comes_before(mid[x], (i, Some(n))));
            }
            assert(is_from(outer, inner, j, swapped, pad, env, o, row));
            lemma_traced_push(
                outer,
                inner,
                j,
                swapped,
                pad,
                env,
                i,
                n,
                m.rows,
                mid,
                o,
                row,
                i + 1,
                0,
            );
            lemma_traced(
                outer,
                inner,
                j,
                swapped,
                pad,
                env,
                i + 1,
                m.rows.push(row),
                mid.push(o),
            )
        }
    } else {
        from
    }
}

/// The rows of an inner, cross, left or right join, one by one, with their origins:
/// each is a pair that joins, or, in an outer join, a row of the side that is kept that
/// joins with none, beside `NULL`s. Every such pair and every such row comes once, in
/// the order of the kept side and then of the other.
pub proof fn law_join_row_by_row(
    l: RelationV,
    r: RelationV,
    kind: JoinKind,
    on: Option<ExprV>,
    using: Seq<Seq<char>>,
    env: EnvV,
    j: JoinV,
) -> (from: Seq<Origin>)
    requires
        kind != JoinKind::Full,
        joined(l, r, kind, on, using, env) is Ok,
        using_from(l.cols, r.cols, using, 0, Seq::empty()) == Ok::<Seq<(usize, usize)>, StopV>(
            j.pairs,
        ),
        j.cols == l.cols + r.cols,
        j.on == on,
    ensures
        ({
            let out = joined(l, r, kind, on, using, env)->Ok_0.rows;
            let swapped = kind == JoinKind::Right;
            let (outer, inner) = if swapped {
                (r.rows, l.rows)
            } else {
                (l.rows, r.rows)
            };
            let pad = match kind {
                JoinKind::Left => Some(Seq::new(r.cols.len(), |i: int| ValueV::Null)),
                JoinKind::Right => Some(Seq::new(l.cols.len(), |i: int| ValueV::Null)),
                _ => None,
            };
            &&& from.len() == out.len()
            &&& forall|n: int|
                0 <= n < out.len() ==> is_from(
                    outer,
                    inner,
                    j,
                    swapped,
                    pad,
                    env,
                    #[trigger] from[n],
                    out[n],
                )
            &&& forall|m: int, n: int|
                0 <= m < n < from.len() ==> comes_before(#[trigger] from[m], #[trigger] from[n])
            &&& forall|a: int, b: int| #[trigger]
                pair_joins(outer, inner, j, swapped, env, a, b) ==> from.contains((a, Some(b)))
            &&& pad is Some ==> forall|a: int|
                0 <= a < outer.len() && #[trigger] meets_none(outer, inner, j, swapped, env, a)
                    ==> from.contains((a, None::<int>))
        }),
{
    let swapped = kind == JoinKind::Right;
    let (outer, inner) = if swapped {
        (r.rows, l.rows)
    } else {
        (l.rows, r.rows)
    };
    let pad = match kind {
        JoinKind::Left => Some(nulls(r.cols.len())),
        JoinKind::Right => Some(nulls(l.cols.len())),
        _ => None,
    };
    let none = Seq::<Origin>::empty();
    assert(traced(outer, inner, j, swapped, pad, env, 0, 0, Seq::empty(), none));
    let from = lemma_traced(outer, inner, j, swapped, pad, env, 0, Seq::empty(), none);
    assert forall|a: int, b: int| #[trigger]
        pair_joins(outer, inner, j, swapped, env, a, b) implies from.contains((a, Some(b))) by {
        assert(a < outer.len());
    }
    from
}

proof fn lemma_unmet_rows(
    l: Seq<RowV>,
    r: Seq<RowV>,
    j: JoinV,
    pad: RowV,
    env: EnvV,
    k: int,
    acc: Seq<RowV>,
)
    requires
        0 <= k <= r.len(),
    ensures
        ({
            let out = unmet_from(l, r, j, pad, env, k, acc);
            &&& acc.len() <= out.len() <= acc.len() + r.len() - k
            &&& forall|n: int| 0 <= n < acc.len() ==> out[n] == #[trigger] acc[n]
            &&& forall|n: int|
                acc.len() <= n < out.len() ==> exists|x: int|
                    k <= x < r.len() && #[trigger] met_by(l, r, j, env, x, l.len() as int) == false
                        && #[trigger] out[n] == pad + r[x]
        }),
    decreases r.len() - k,
{
    if k < r.len() {
        if met_by(l, r, j, env, k, l.len() as int) {
            lemma_unmet_rows(l, r, j, pad, env, k + 1, acc);
        } else {
            let next = acc.push(pad + r[k]);
            lemma_unmet_rows(l, r, j, pad, env, k + 1, next);
            let out = unmet_from(l, r, j, pad, env, k, acc);
            assert forall|n: int| 0 <= n < acc.len() implies out[n] == #[trigger] acc[n] by {
                assert(next[n] == acc[n]);
            }
            assert(out[acc.len() as int] == next[acc.len() as int]);
        }
    }
}

/// A full join gives what the left join gives, and behind that the right rows that join
/// with none, each beside `NULL`s.
pub proof fn law_full_join(
    l: RelationV,
    r: RelationV,
    on: Option<ExprV>,
    using: Seq<Seq<char>>,
    env: EnvV,
    j: JoinV,
)
    requires
        joined(l, r, JoinKind::Full, on, using, env) is Ok,
        using_from(l.cols, r.cols, using, 0, Seq::empty()) == Ok::<Seq<(usize, usize)>, StopV>(
            j.pairs,
        ),
        j.cols == l.cols + r.cols,
        j.on == on,
    ensures
        joined(l, r, JoinKind::Left, on, using, env) is Ok,
        ({
            let out = joined(l, r, JoinKind::Full, on, using, env)->Ok_0.rows;
            let left = joined(l, r, JoinKind::Left, on, using, env)->Ok_0.rows;
            let pad = Seq::new(l.cols.len(), |i: int| ValueV::Null);
            &&& left.len() <= out.len() <= left.len() + r.rows.len()
            &&& forall|n: int| 0 <= n < left.len() ==> out[n] == #[trigger] left[n]
            &&& forall|n: int|
                left.len() <= n < out.len() ==> exists|x: int|
                    0 <= x < r.rows.len() && #[trigger] met_by(
                        l.rows,
                        r.rows,
                        j,
                        env,
                        x,
                        l.rows.len() as int,
                    ) == false && #[trigger] out[n] == pad + r.rows[x]
        }),
{
    let left = joined(l, r, JoinKind::Left, on, using, env)->Ok_0.rows;
    lemma_unmet_rows(l.rows, r.rows, j, nulls(l.cols.len()), env, 0, left);
}

} // verus!
