//! `ORDER BY`: the first key decides, then the next.
use vstd::prelude::*;
use crate::asks::StopV;
use crate::env::EnvV;
use crate::eval::{cell, ev, CtxV};
use crate::ieee::{law_integers_keep_their_order, Order};
use crate::ops::key_order;
use crate::sorting::{
    by_cells, by_keys, cells_rank, consistent, law_sort_orders, law_sort_permutes, permutes, ranks,
    sorted_places, CellKey, Ranking,
};
use crate::sql::KeyV;
use crate::value::{RowV, ValueV};

verus! {

/// Where an integer or `NULL` stands under a key: by its size, upwards or downwards, and
/// `NULL` in front of all or behind them.
pub open spec fn standing(v: ValueV, asc: bool, nulls_first: bool) -> int {
    match v {
        ValueV::Int(i) => if asc {
            i as int
        } else {
            -i
        },
        _ => if nulls_first {
            i64::MIN - 1
        } else {
            i64::MAX + 2
        },
    }
}

/// `NULL`, or an integer that is small enough to be told from its neighbours.
pub open spec fn counts(v: ValueV) -> bool {
    match v {
        ValueV::Int(i) => -0x20_0000_0000_0000 < i < 0x20_0000_0000_0000,
        ValueV::Null => true,
        _ => false,
    }
}

/// Whether of two lists the first is smaller where they first differ.
pub open spec fn ahead(p: Seq<int>, q: Seq<int>) -> bool {
    exists|k: int| ahead_at(p, q, k)
}

pub open spec fn ahead_at(p: Seq<int>, q: Seq<int>, k: int) -> bool {
    &&& 0 <= k < p.len()
    &&& k < q.len()
    &&& p[k] < q[k]
    &&& forall|m: int| 0 <= m < k ==> #[trigger] p[m] == q[m]
}

proof fn lemma_standing(a: ValueV, b: ValueV, asc: bool, nulls_first: bool)
    requires
        counts(a),
        counts(b),
    ensures
        key_order(a, b, asc, nulls_first) == (if standing(a, asc, nulls_first) < standing(
            b,
            asc,
            nulls_first,
        ) {
            Order::Less
        } else if standing(a, asc, nulls_first) == standing(b, asc, nulls_first) {
            Order::Equal
        } else {
            Order::Greater
        }),
{
    if a is Int && b is Int {
        law_integers_keep_their_order(a->Int_0, b->Int_0);
    }
}

/// The standings of a scope under keys.
pub open spec fn standings(keys: Seq<KeyV>, c: CtxV, env: EnvV) -> Seq<int> {
    Seq::new(
        keys.len(),
        |k: int| standing(ev(keys[k].expr, c, env)->Ok_0, keys[k].asc, keys[k].nulls_first),
    )
}

/// Whether every key is an integer or `NULL` in a scope.
pub open spec fn keys_count(keys: Seq<KeyV>, c: CtxV, env: EnvV) -> bool {
    forall|k: int|
        0 <= k < keys.len() ==> (ev((#[trigger] keys[k]).expr, c, env) matches Ok(v) && counts(v))
}

/// How two lists compare that agree up to `k`.
spec fn compared(p: Seq<int>, q: Seq<int>, k: int) -> Order
    decreases p.len() - k,
{
    if k < 0 || k >= p.len() {
        Order::Equal
    } else if p[k] < q[k] {
        Order::Less
    } else if p[k] > q[k] {
        Order::Greater
    } else {
        compared(p, q, k + 1)
    }
}

proof fn lemma_compared(p: Seq<int>, q: Seq<int>, k: int)
    requires
        p.len() == q.len(),
        0 <= k <= p.len(),
        forall|m: int| 0 <= m < k ==> #[trigger] p[m] == q[m],
    ensures
        compared(p, q, k) == Order::Less <==> ahead(p, q),
        compared(p, q, k) == Order::Greater <==> ahead(q, p),
        compared(p, q, k) == Order::Equal <==> p == q,
    decreases p.len() - k,
{
    if k < p.len() && p[k] == q[k] {
        lemma_compared(p, q, k + 1);
    } else if k < p.len() {
        if p[k] < q[k] {
            assert(ahead_at(p, q, k));
        } else {
            assert(ahead_at(q, p, k));
        }
        if ahead(p, q) {
            let m = choose|m: int| ahead_at(p, q, m);
            assert(m >= k);
            assert(p[k] <= q[k]);
        }
        if ahead(q, p) {
            let m = choose|m: int| ahead_at(q, p, m);
            assert(m >= k);
            assert(q[k] <= p[k]);
        }
    } else {
        assert(p =~= q);
    }
}

proof fn lemma_ranks(keys: Seq<KeyV>, k: int, a: CtxV, b: CtxV, env: EnvV)
    requires
        0 <= k <= keys.len(),
        keys_count(keys, a, env),
        keys_count(keys, b, env),
    ensures
        ranks(keys, k, a, b, env) == Ok::<Order, StopV>(
            compared(standings(keys, a, env), standings(keys, b, env), k),
        ),
    decreases keys.len() - k,
{
    if k < keys.len() {
        let x = ev(keys[k].expr, a, env)->Ok_0;
        let y = ev(keys[k].expr, b, env)->Ok_0;
        lemma_standing(x, y, keys[k].asc, keys[k].nulls_first);
        lemma_ranks(keys, k + 1, a, b, env);
    }
}

/// Whether a ranking goes by lists of one length.
spec fn goes_by(f: Ranking, n: int, of: spec_fn(int) -> Seq<int>, len: nat) -> bool {
    &&& forall|x: int| 0 <= x < n ==> (#[trigger] of(x)).len() == len
    &&& forall|x: int, y: int|
        0 <= x < n && 0 <= y < n ==> #[trigger] f(x, y) == Ok::<Order, StopV>(
            compared(of(x), of(y), 0),
        )
}

proof fn lemma_ahead_transitive(p: Seq<int>, q: Seq<int>, r: Seq<int>)
    requires
        p.len() == q.len() == r.len(),
        !ahead(q, p),
        !ahead(r, q),
    ensures
        !ahead(r, p),
{
    if ahead(r, p) {
        let k = choose|k: int| ahead_at(r, p, k);
        lemma_compared(p, q, 0);
        lemma_compared(q, r, 0);
        if p != q && q != r {
            let a = choose|a: int| ahead_at(p, q, a);
            let b = choose|b: int| ahead_at(q, r, b);
            let m = if a < b {
                a
            } else {
                b
            };
            assert(p[m] <= q[m] && q[m] <= r[m] && p[m] < r[m]);
            if k < m {
                assert(p[k] == q[k] && q[k] == r[k]);
            } else if m < k {
                assert(r[m] == p[m]);
            }
        }
    }
}

proof fn lemma_goes_by(f: Ranking, n: int, of: spec_fn(int) -> Seq<int>, len: nat)
    requires
        0 <= n,
        goes_by(f, n, of, len),
    ensures
        consistent(f, n),
        sorted_places(f, n) is Ok,
        permutes(sorted_places(f, n)->Ok_0, n),
        sorted_as(sorted_places(f, n)->Ok_0, of),
{
    assert forall|x: int, y: int| 0 <= x < n && 0 <= y < n implies ((#[trigger] f(x, y)) == Ok::<
        Order,
        StopV,
    >(Order::Less) <==> f(y, x) == Ok::<Order, StopV>(Order::Greater)) by {
        assert(of(x).len() == len && of(y).len() == len);
        lemma_compared(of(x), of(y), 0);
        lemma_compared(of(y), of(x), 0);
        assert(f(y, x) == Ok::<Order, StopV>(compared(of(y), of(x), 0)));
    }
    assert forall|x: int, y: int, z: int|
        0 <= x < n && 0 <= y < n && 0 <= z < n && #[trigger] f(x, y) != Ok::<Order, StopV>(
            Order::Greater,
        ) && #[trigger] f(y, z) != Ok::<Order, StopV>(Order::Greater) implies f(x, z) != Ok::<
        Order,
        StopV,
    >(Order::Greater) by {
        assert(of(x).len() == len && of(y).len() == len && of(z).len() == len);
        lemma_compared(of(x), of(y), 0);
        lemma_compared(of(y), of(z), 0);
        lemma_compared(of(x), of(z), 0);
        assert(f(x, z) == Ok::<Order, StopV>(compared(of(x), of(z), 0)));
        lemma_ahead_transitive(of(x), of(y), of(z));
    }
    law_sort_orders(f, n);
    law_sort_permutes(f, n);
    let o = sorted_places(f, n)->Ok_0;
    assert forall|a: int, b: int| 0 <= a < b < o.len() implies {
        &&& !ahead(of(#[trigger] o[b]), of(#[trigger] o[a]))
        &&& of(o[a]) == of(o[b]) ==> o[a] < o[b]
    } by {
        let r = f(o[a], o[b]);
        assert(0 <= o[a] < n && 0 <= o[b] < n);
        assert(of(o[a]).len() == len && of(o[b]).len() == len);
        assert(r == Ok::<Order, StopV>(compared(of(o[a]), of(o[b]), 0)));
        lemma_compared(of(o[a]), of(o[b]), 0);
    }
}

/// Whether places are in the order of the lists that stand for them; those with equal
/// lists keep their order.
pub open spec fn sorted_as(o: Seq<int>, of: spec_fn(int) -> Seq<int>) -> bool {
    forall|a: int, b: int|
        0 <= a < b < o.len() ==> {
            &&& !ahead(of(#[trigger] o[b]), of(#[trigger] o[a]))
            &&& of(o[a]) == of(o[b]) ==> o[a] < o[b]
        }
}

/// `ORDER BY` with keys that are integers, not too large, or `NULL` never fails; what it gives is in the
/// order of the first key, among equals in that of the next, and so on; `DESC` turns a
/// key round, `NULL`s go where they are asked to, and rows with equal keys keep their
/// order.
pub proof fn law_order_by(ctxs: Seq<CtxV>, keys: Seq<KeyV>, env: EnvV)
    requires
        forall|x: int| 0 <= x < ctxs.len() ==> keys_count(keys, #[trigger] ctxs[x], env),
    ensures
        sorted_places(by_keys(ctxs, keys, env), ctxs.len() as int) matches Ok(o) && permutes(
            o,
            ctxs.len() as int,
        ) && sorted_as(o, |x: int| standings(keys, ctxs[x], env)),
{
    let n = ctxs.len() as int;
    let f = by_keys(ctxs, keys, env);
    let of = |x: int| standings(keys, ctxs[x], env);
    assert forall|x: int, y: int| 0 <= x < n && 0 <= y < n implies #[trigger] f(x, y) == Ok::<
        Order,
        StopV,
    >(compared(of(x), of(y), 0)) by {
        lemma_ranks(keys, 0, ctxs[x], ctxs[y], env);
    }
    lemma_goes_by(f, n, of, keys.len());
}

/// The standings of an output row under keys that name its cells.
pub open spec fn cell_standings(keys: Seq<CellKey>, row: RowV) -> Seq<int> {
    Seq::new(
        keys.len(),
        |k: int| standing(cell(row, keys[k].at as int), keys[k].asc, keys[k].nulls_first),
    )
}

pub open spec fn cells_count(keys: Seq<CellKey>, row: RowV) -> bool {
    forall|k: int| 0 <= k < keys.len() ==> counts(cell(row, (#[trigger] keys[k]).at as int))
}

proof fn lemma_cells_rank(keys: Seq<CellKey>, k: int, a: RowV, b: RowV)
    requires
        0 <= k <= keys.len(),
        cells_count(keys, a),
        cells_count(keys, b),
    ensures
        cells_rank(keys, k, a, b) == compared(cell_standings(keys, a), cell_standings(keys, b), k),
    decreases keys.len() - k,
{
    if k < keys.len() {
        lemma_standing(
            cell(a, keys[k].at as int),
            cell(b, keys[k].at as int),
            keys[k].asc,
            keys[k].nulls_first,
        );
        lemma_cells_rank(keys, k + 1, a, b);
    }
}

/// The same of the outer `ORDER BY` of a set operation, whose keys are cells of the rows.
pub proof fn law_order_by_cells(rows: Seq<RowV>, keys: Seq<CellKey>)
    requires
        forall|x: int| 0 <= x < rows.len() ==> cells_count(keys, #[trigger] rows[x]),
    ensures
        sorted_places(by_cells(rows, keys), rows.len() as int) matches Ok(o) && permutes(
            o,
            rows.len() as int,
        ) && sorted_as(o, |x: int| cell_standings(keys, rows[x])),
{
    let n = rows.len() as int;
    let f = by_cells(rows, keys);
    let of = |x: int| cell_standings(keys, rows[x]);
    assert forall|x: int, y: int| 0 <= x < n && 0 <= y < n implies #[trigger] f(x, y) == Ok::<
        Order,
        StopV,
    >(compared(of(x), of(y), 0)) by {
        lemma_cells_rank(keys, 0, rows[x], rows[y]);
    }
    lemma_goes_by(f, n, of, keys.len());
}

} // verus!
