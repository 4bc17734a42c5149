//! Stable sorting by a comparison that may fail.
//!
//! What is sorted are places `0, 1, 2, ...`; each goes in, one after the other,
//! behind those that do not come after it. The search for its place halves, so few
//! comparisons are made, and none at all for fewer than two places.
use vstd::prelude::*;
use crate::asks::{Stop, StopV};
use crate::env::{Env, EnvV};
use crate::eval::{cell, cell_at, ev, eval, CtxV, EvalCtx};
use crate::ieee::Order;
use crate::ops::{key_order, order_values};
use crate::scope::places_view;
use crate::sql::{Expr, KeyV};
use crate::value::{row_view, rows_view, RowV, Value};

verus! {

/// A comparison of two places.
pub type Ranking = spec_fn(int, int) -> Result<Order, StopV>;

/// Where `x` goes among the places from `lo` to `hi`.
pub open spec fn place_in(f: Ranking, order: Seq<int>, x: int, lo: int, hi: int) -> Result<
    int,
    StopV,
>
    decreases hi - lo,
{
    if lo >= hi {
        Ok(lo)
    } else {
        let mid = lo + (hi - lo) / 2;
        match f(x, order[mid]) {
            Err(s) => Err(s),
            Ok(o) => if o == Order::Less {
                place_in(f, order, x, lo, mid)
            } else {
                place_in(f, order, x, mid + 1, hi)
            },
        }
    }
}

/// The places from `i` to `n` put in among those of `order`.
pub open spec fn sort_from(f: Ranking, n: int, i: int, order: Seq<int>) -> Result<Seq<int>, StopV>
    decreases n - i,
{
    if i < 0 || i >= n {
        Ok(order)
    } else {
        match place_in(f, order, i, 0, order.len() as int) {
            Err(s) => Err(s),
            Ok(p) => sort_from(f, n, i + 1, order.insert(p, i)),
        }
    }
}

/// The sorted places `0 .. n`.
pub open spec fn sorted_places(f: Ranking, n: int) -> Result<Seq<int>, StopV> {
    sort_from(f, n, 0, Seq::empty())
}

proof fn lemma_place_by_cells(rows: Seq<RowV>, keys: Seq<CellKey>, o: Seq<int>, i: int, lo: int, hi: int)
    ensures
        place_in(by_cells(rows, keys), o, i, lo, hi) is Ok,
    decreases hi - lo,
{
    if lo < hi {
        let mid = lo + (hi - lo) / 2;
        lemma_place_by_cells(rows, keys, o, i, lo, mid);
        lemma_place_by_cells(rows, keys, o, i, mid + 1, hi);
    }
}

proof fn lemma_from_by_cells(rows: Seq<RowV>, keys: Seq<CellKey>, n: int, i: int, acc: Seq<int>)
    ensures
        sort_from(by_cells(rows, keys), n, i, acc) is Ok,
    decreases n - i,
{
    if 0 <= i < n {
        lemma_place_by_cells(rows, keys, acc, i, 0, acc.len() as int);
        let p = place_in(by_cells(rows, keys), acc, i, 0, acc.len() as int)->Ok_0;
        lemma_from_by_cells(rows, keys, n, i + 1, acc.insert(p, i));
    }
}

/// Rows can always be sorted by their cells.
pub proof fn lemma_sorted_by_cells(rows: Seq<RowV>, keys: Seq<CellKey>, n: int)
    ensures
        sorted_places(by_cells(rows, keys), n) is Ok,
{
    lemma_from_by_cells(rows, keys, n, 0, Seq::empty());
}

/// The order of two scopes under the keys from `k` on.
pub open spec fn ranks(keys: Seq<KeyV>, k: int, a: CtxV, b: CtxV, env: EnvV) -> Result<Order, StopV>
    decreases keys.len() - k,
{
    if k < 0 || k >= keys.len() {
        Ok(Order::Equal)
    } else {
        match ev(keys[k].expr, a, env) {
            Err(s) => Err(s),
            Ok(x) => match ev(keys[k].expr, b, env) {
                Err(s) => Err(s),
                Ok(y) => {
                    let o = key_order(x, y, keys[k].asc, keys[k].nulls_first);
                    if o != Order::Equal {
                        Ok(o)
                    } else {
                        ranks(keys, k + 1, a, b, env)
                    }
                },
            },
        }
    }
}

/// Scopes compared by order keys.
pub open spec fn by_keys(ctxs: Seq<CtxV>, keys: Seq<KeyV>, env: EnvV) -> Ranking {
    |x: int, y: int| ranks(keys, 0, ctxs[x], ctxs[y], env)
}

/// A key of an output row: its place, its direction, and where `NULL`s go.
#[derive(Clone, Copy)]
pub struct CellKey {
    pub at: usize,
    pub asc: bool,
    pub nulls_first: bool,
}

/// The order of two rows under cell keys from `k` on.
pub open spec fn cells_rank(keys: Seq<CellKey>, k: int, a: RowV, b: RowV) -> Order
    decreases keys.len() - k,
{
    if k < 0 || k >= keys.len() {
        Order::Equal
    } else {
        let o = key_order(
            cell(a, keys[k].at as int),
            cell(b, keys[k].at as int),
            keys[k].asc,
            keys[k].nulls_first,
        );
        if o != Order::Equal {
            o
        } else {
            cells_rank(keys, k + 1, a, b)
        }
    }
}

pub open spec fn by_cells(rows: Seq<RowV>, keys: Seq<CellKey>) -> Ranking {
    |x: int, y: int| Ok(cells_rank(keys, 0, rows[x], rows[y]))
}

/// An order key whose expression may come from the select list.
pub struct SortKey<'a> {
    pub expr: &'a Expr,
    pub asc: bool,
    pub nulls_first: bool,
}

pub open spec fn sort_keys_view(v: Seq<SortKey>) -> Seq<KeyV> {
    Seq::new(
        v.len(),
        |i: int| KeyV { expr: v[i].expr@, asc: v[i].asc, nulls_first: v[i].nulls_first },
    )
}

pub open spec fn ctxs_view(v: Seq<EvalCtx>) -> Seq<CtxV> {
    Seq::new(v.len(), |i: int| v[i]@)
}

pub open spec fn order_result(r: Result<Order, Stop>) -> Result<Order, StopV> {
    match r {
        Ok(o) => Ok(o),
        Err(s) => Err(s@),
    }
}

pub open spec fn places_result(r: Result<Vec<usize>, Stop>) -> Result<Seq<int>, StopV> {
    match r {
        Ok(v) => Ok(places_view(v@)),
        Err(s) => Err(s@),
    }
}

fn rank(keys: &Vec<SortKey>, a: &EvalCtx, b: &EvalCtx, env: &Env) -> (r: Result<Order, Stop>)
    ensures
        order_result(r) == ranks(sort_keys_view(keys@), 0, a@, b@, env@),
{
    let ghost kv = sort_keys_view(keys@);
    let mut k: usize = 0;
    while k < keys.len()
        invariant
            k <= keys.len(),
            kv == sort_keys_view(keys@),
            ranks(kv, k as int, a@, b@, env@) == ranks(kv, 0, a@, b@, env@),
        decreases keys.len() - k,
    {
        assert(kv[k as int].expr == keys@[k as int].expr@);
        let x = match eval(keys[k].expr, a, env) {
            Ok(v) => v,
            Err(s) => {
                return Err(s);
            },
        };
        let y = match eval(keys[k].expr, b, env) {
            Ok(v) => v,
            Err(s) => {
                return Err(s);
            },
        };
        let o = order_values(&x, &y, keys[k].asc, keys[k].nulls_first);
        if o != Order::Equal {
            return Ok(o);
        }
        k += 1;
    }
    Ok(Order::Equal)
}

/// Sort scopes by order keys.
pub fn sort_by_keys(ctxs: &Vec<EvalCtx>, keys: &Vec<SortKey>, env: &Env) -> (r: Result<
    Vec<usize>,
    Stop,
>)
    ensures
        places_result(r) == sorted_places(
            by_keys(ctxs_view(ctxs@), sort_keys_view(keys@), env@),
            ctxs@.len() as int,
        ),
        r matches Ok(v) ==> forall|k: int| 0 <= k < v.len() ==> v@[k] < ctxs.len(),
{
    let ghost cv = ctxs_view(ctxs@);
    let ghost kv = sort_keys_view(keys@);
    let ghost f = by_keys(cv, kv, env@);
    let ghost n = ctxs@.len() as int;
    let mut order: Vec<usize> = Vec::new();
    assert(places_view(order@) =~= Seq::<int>::empty());
    let mut i: usize = 0;
    while i < ctxs.len()
        invariant
            i <= ctxs.len(),
            n == ctxs@.len(),
            cv == ctxs_view(ctxs@),
            kv == sort_keys_view(keys@),
            f == by_keys(cv, kv, env@),
            order.len() == i,
            forall|k: int| 0 <= k < order.len() ==> order@[k] < i,
            sort_from(f, n, i as int, places_view(order@)) == sorted_places(f, n),
        decreases ctxs.len() - i,
    {
        let ghost ov = places_view(order@);
        let mut lo: usize = 0;
        let mut hi: usize = order.len();
        while lo < hi
            invariant
                lo <= hi <= order.len(),
                i < ctxs.len(),
                n == ctxs@.len(),
                cv == ctxs_view(ctxs@),
                kv == sort_keys_view(keys@),
                f == by_keys(cv, kv, env@),
                ov == places_view(order@),
                forall|k: int| 0 <= k < order.len() ==> order@[k] < i,
                sort_from(f, n, i as int, ov) == sorted_places(f, n),
                place_in(f, ov, i as int, lo as int, hi as int) == place_in(
                    f,
                    ov,
                    i as int,
                    0,
                    ov.len() as int,
                ),
            decreases hi - lo,
        {
            let mid: usize = lo + (hi - lo) / 2;
            assert(ov[mid as int] == order@[mid as int] as int);
            assert(cv[i as int] == ctxs@[i as int]@);
            assert(cv[ov[mid as int]] == ctxs@[order@[mid as int] as int]@);
            match rank(keys, &ctxs[i], &ctxs[order[mid]], env) {
                Ok(o) => {
                    assert(f(i as int, ov[mid as int]) == Ok::<Order, StopV>(o));
                    if o == Order::Less {
                        hi = mid;
                    } else {
                        lo = mid + 1;
                    }
                },
                Err(s) => {
                    assert(f(i as int, ov[mid as int]) == Err::<Order, StopV>(s@));
                    return Err(s);
                },
            }
        }
        order.insert(lo, i);
        assert(places_view(order@) =~= ov.insert(lo as int, i as int));
        i += 1;
    }
    Ok(order)
}

fn rank_cells(keys: &Vec<CellKey>, a: &[Value], b: &[Value]) -> (r: Order)
    ensures
        r == cells_rank(keys@, 0, row_view(a@), row_view(b@)),
{
    let mut k: usize = 0;
    while k < keys.len()
        invariant
            k <= keys.len(),
            cells_rank(keys@, k as int, row_view(a@), row_view(b@)) == cells_rank(
                keys@,
                0,
                row_view(a@),
                row_view(b@),
            ),
        decreases keys.len() - k,
    {
        let key = keys[k];
        let o = order_values(
            &cell_at(a, key.at),
            &cell_at(b, key.at),
            key.asc,
            key.nulls_first,
        );
        if o != Order::Equal {
            return o;
        }
        k += 1;
    }
    Order::Equal
}

/// Sort rows by cells of theirs.
pub fn sort_by_cells(rows: &Vec<Vec<Value>>, keys: &Vec<CellKey>) -> (r: Vec<usize>)
    ensures
        Ok::<Seq<int>, StopV>(places_view(r@)) == sorted_places(
            by_cells(rows_view(rows@), keys@),
            rows@.len() as int,
        ),
        forall|k: int| 0 <= k < r.len() ==> r@[k] < rows.len(),
{
    let ghost rv = rows_view(rows@);
    let ghost f = by_cells(rv, keys@);
    let ghost n = rows@.len() as int;
    let mut order: Vec<usize> = Vec::new();
    assert(places_view(order@) =~= Seq::<int>::empty());
    let mut i: usize = 0;
    while i < rows.len()
        invariant
            i <= rows.len(),
            n == rows@.len(),
            rv == rows_view(rows@),
            f == by_cells(rv, keys@),
            order.len() == i,
            forall|k: int| 0 <= k < order.len() ==> order@[k] < i,
            sort_from(f, n, i as int, places_view(order@)) == sorted_places(f, n),
        decreases rows.len() - i,
    {
        let ghost ov = places_view(order@);
        let mut lo: usize = 0;
        let mut hi: usize = order.len();
        while lo < hi
            invariant
                lo <= hi <= order.len(),
                i < rows.len(),
                rv == rows_view(rows@),
                f == by_cells(rv, keys@),
                ov == places_view(order@),
                forall|k: int| 0 <= k < order.len() ==> order@[k] < i,
                place_in(f, ov, i as int, lo as int, hi as int) == place_in(
                    f,
                    ov,
                    i as int,
                    0,
                    ov.len() as int,
                ),
            decreases hi - lo,
        {
            let mid: usize = lo + (hi - lo) / 2;
            assert(ov[mid as int] == order@[mid as int] as int);
            assert(rv[i as int] == row_view(rows@[i as int]@));
            assert(rv[ov[mid as int]] == row_view(rows@[order@[mid as int] as int]@));
            let o = rank_cells(keys, &rows[i], &rows[order[mid]]);
            assert(f(i as int, ov[mid as int]) == Ok::<Order, StopV>(o));
            if o == Order::Less {
                hi = mid;
            } else {
                lo = mid + 1;
            }
        }
        order.insert(lo, i);
        assert(places_view(order@) =~= ov.insert(lo as int, i as int));
        i += 1;
    }
    order
}

// ---- laws -------------------------------------------------------------------------------------

proof fn lemma_place_bounds(f: Ranking, order: Seq<int>, x: int, lo: int, hi: int)
    requires
        0 <= lo <= hi <= order.len(),
    ensures
        place_in(f, order, x, lo, hi) matches Ok(p) ==> lo <= p <= hi,
    decreases hi - lo,
{
    if lo < hi {
        let mid = lo + (hi - lo) / 2;
        lemma_place_bounds(f, order, x, lo, mid);
        lemma_place_bounds(f, order, x, mid + 1, hi);
    }
}

/// `order` holds each place below `n` once.
pub open spec fn permutes(order: Seq<int>, n: int) -> bool {
    &&& order.len() == n
    &&& forall|k: int| 0 <= k < order.len() ==> 0 <= #[trigger] order[k] < n
    &&& forall|a: int, b: int|
        0 <= a < order.len() && 0 <= b < order.len() && #[trigger] order[a] == #[trigger] order[b]
            ==> a == b
}

proof fn lemma_insert_permutes(order: Seq<int>, p: int, n: int)
    requires
        permutes(order, n),
        0 <= p <= order.len(),
    ensures
        permutes(order.insert(p, n), n + 1),
{
    let u = order.insert(p, n);
    assert forall|k: int| 0 <= k < u.len() implies 0 <= #[trigger] u[k] < n + 1 by {
        if k < p {
            assert(u[k] == order[k]);
        } else if k > p {
            assert(u[k] == order[k - 1]);
        }
    }
    assert forall|a: int, b: int|
        0 <= a < u.len() && 0 <= b < u.len() && #[trigger] u[a] == #[trigger] u[b] implies a
        == b by {
        let x = if a < p {
            a
        } else {
            a - 1
        };
        let y = if b < p {
            b
        } else {
            b - 1
        };
        if a != p {
            assert(u[a] == order[x]);
        }
        if b != p {
            assert(u[b] == order[y]);
        }
    }
}

proof fn lemma_sort_permutes(f: Ranking, n: int, i: int, order: Seq<int>)
    requires
        0 <= i <= n,
        permutes(order, i),
    ensures
        sort_from(f, n, i, order) matches Ok(o) ==> permutes(o, n),
    decreases n - i,
{
    if i < n {
        lemma_place_bounds(f, order, i, 0, order.len() as int);
        match place_in(f, order, i, 0, order.len() as int) {
            Ok(p) => {
                lemma_insert_permutes(order, p, i);
                lemma_sort_permutes(f, n, i + 1, order.insert(p, i));
            },
            Err(_) => {},
        }
    }
}

/// Sorting neither loses, adds nor repeats anything.
pub proof fn law_sort_permutes(f: Ranking, n: int)
    requires
        0 <= n,
    ensures
        sorted_places(f, n) matches Ok(o) ==> permutes(o, n),
{
    lemma_sort_permutes(f, n, 0, Seq::empty());
}

/// A comparison that always answers, and consistently so.
pub open spec fn consistent(f: Ranking, n: int) -> bool {
    &&& forall|x: int, y: int| 0 <= x < n && 0 <= y < n ==> (#[trigger] f(x, y)) is Ok
    &&& forall|x: int, y: int|
        0 <= x < n && 0 <= y < n ==> ((#[trigger] f(x, y)) == Ok::<Order, StopV>(Order::Less)
            <==> f(y, x) == Ok::<Order, StopV>(Order::Greater))
    &&& forall|x: int, y: int, z: int|
        0 <= x < n && 0 <= y < n && 0 <= z < n && #[trigger] f(x, y) != Ok::<Order, StopV>(
            Order::Greater,
        ) && #[trigger] f(y, z) != Ok::<Order, StopV>(Order::Greater) ==> f(x, z) != Ok::<
            Order,
            StopV,
        >(Order::Greater)
}

/// Each place comes after none of those behind it; of two equal ones, the lower
/// comes first.
pub open spec fn in_order(f: Ranking, order: Seq<int>) -> bool {
    forall|a: int, b: int|
        0 <= a < b < order.len() ==> {
            let o = f(#[trigger] order[a], #[trigger] order[b]);
            &&& o != Ok::<Order, StopV>(Order::Greater)
            &&& o == Ok::<Order, StopV>(Order::Equal) ==> order[a] < order[b]
        }
}

proof fn lemma_place(f: Ranking, order: Seq<int>, x: int, n: int, lo: int, hi: int)
    requires
        0 <= lo <= hi <= order.len(),
        permutes(order, x),
        0 <= x < n,
        consistent(f, n),
        in_order(f, order),
        forall|k: int|
            0 <= k < lo ==> f(x, #[trigger] order[k]) != Ok::<Order, StopV>(Order::Less),
        forall|k: int|
            hi <= k < order.len() ==> f(x, #[trigger] order[k]) == Ok::<Order, StopV>(Order::Less),
    ensures
        place_in(f, order, x, lo, hi) matches Ok(p) && lo <= p <= hi && (forall|k: int|
            0 <= k < p ==> f(x, #[trigger] order[k]) != Ok::<Order, StopV>(Order::Less)) && (
        forall|k: int|
            p <= k < order.len() ==> f(x, #[trigger] order[k]) == Ok::<Order, StopV>(Order::Less)),
    decreases hi - lo,
{
    if lo < hi {
        let mid = lo + (hi - lo) / 2;
        let m = order[mid];
        assert(f(x, m) is Ok);
        if f(x, m) == Ok::<Order, StopV>(Order::Less) {
            assert forall|k: int| mid <= k < order.len() implies f(x, #[trigger] order[k]) == Ok::<
                Order,
                StopV,
            >(Order::Less) by {
                if k > mid {
                    let y = order[k];
                    assert(f(m, y) != Ok::<Order, StopV>(Order::Greater));
                    assert(f(x, y) is Ok);
                    if f(x, y) != Ok::<Order, StopV>(Order::Less) {
                        assert(f(y, x) != Ok::<Order, StopV>(Order::Greater)) by {
                            assert(f(y, x) is Ok);
                        }
                        assert(f(m, x) != Ok::<Order, StopV>(Order::Greater));
                        assert(f(m, x) == Ok::<Order, StopV>(Order::Greater));
                    }
                }
            }
            lemma_place(f, order, x, n, lo, mid);
        } else {
            assert forall|k: int| 0 <= k < mid + 1 implies f(x, #[trigger] order[k]) != Ok::<
                Order,
                StopV,
            >(Order::Less) by {
                if k < mid {
                    let y = order[k];
                    assert(f(y, m) != Ok::<Order, StopV>(Order::Greater));
                    if f(x, y) == Ok::<Order, StopV>(Order::Less) {
                        assert(f(m, x) != Ok::<Order, StopV>(Order::Greater)) by {
                            assert(f(m, x) is Ok);
                        }
                        assert(f(y, x) != Ok::<Order, StopV>(Order::Greater));
                        assert(f(y, x) == Ok::<Order, StopV>(Order::Greater));
                    }
                }
            }
            lemma_place(f, order, x, n, mid + 1, hi);
        }
    }
}

proof fn lemma_sort_orders(f: Ranking, n: int, i: int, order: Seq<int>)
    requires
        0 <= i <= n,
        permutes(order, i),
        consistent(f, n),
        in_order(f, order),
    ensures
        sort_from(f, n, i, order) matches Ok(o) && in_order(f, o),
    decreases n - i,
{
    if i < n {
        lemma_place(f, order, i, n, 0, order.len() as int);
        let p = place_in(f, order, i, 0, order.len() as int)->Ok_0;
        lemma_insert_permutes(order, p, i);
        let u = order.insert(p, i);
        assert forall|a: int, b: int| 0 <= a < b < u.len() implies {
            let o = f(#[trigger] u[a], #[trigger] u[b]);
            &&& o != Ok::<Order, StopV>(Order::Greater)
            &&& o == Ok::<Order, StopV>(Order::Equal) ==> u[a] < u[b]
        } by {
            let x = if a < p {
                a
            } else {
                a - 1
            };
            let y = if b < p {
                b
            } else {
                b - 1
            };
            if a != p {
                assert(u[a] == order[x]);
            }
            if b != p {
                assert(u[b] == order[y]);
            }
            if b == p {
                assert(f(i, order[x]) != Ok::<Order, StopV>(Order::Less));
                assert(f(order[x], i) is Ok);
            } else if a == p {
                assert(f(i, order[y]) == Ok::<Order, StopV>(Order::Less));
            }
        }
        lemma_sort_orders(f, n, i + 1, u);
    }
}

/// Under a consistent comparison, sorting succeeds and orders, and keeps equal
/// elements as they came.
pub proof fn law_sort_orders(f: Ranking, n: int)
    requires
        0 <= n,
        consistent(f, n),
    ensures
        sorted_places(f, n) matches Ok(o) && in_order(f, o),
{
    lemma_sort_orders(f, n, 0, Seq::empty());
}

} // verus!
