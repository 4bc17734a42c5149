//! Which views a view rests on, and that none rests on itself.
use vstd::prelude::*;
use crate::catalog::strings_view;
use crate::refs::{outer_names, referenced_relations};
use crate::sql::SelectStmt;
use crate::store::{lemma_name_pos, name_pos, put_view, view_names, Store, ViewV};
use crate::text::{lower_text, names_match, same_name};

verus! {

/// What the view of a name rests on; nothing, where the name is no view's.
pub open spec fn rests_on(views: Seq<ViewV>, n: Seq<char>) -> Seq<Seq<char>> {
    match name_pos(view_names(views), n, 0) {
        Some(i) => outer_names(views[i].query),
        None => Seq::empty(),
    }
}

/// Each name of the chain is one that the view before it rests on.
pub open spec fn is_chain(views: Seq<ViewV>, c: Seq<Seq<char>>) -> bool {
    forall|k: int| 0 <= k < c.len() - 1 ==> rests_on(views, #[trigger] c[k]).contains(c[k + 1])
}

pub open spec fn chain_between(
    views: Seq<ViewV>,
    from: Seq<Seq<char>>,
    c: Seq<Seq<char>>,
    name: Seq<char>,
) -> bool {
    c.len() > 0 && from.contains(c[0]) && is_chain(views, c) && same_name(c.last(), name)
}

/// A chain of views leads from one of `from` to a name.
pub open spec fn leads_to(views: Seq<ViewV>, from: Seq<Seq<char>>, name: Seq<char>) -> bool {
    exists|c: Seq<Seq<char>>| chain_between(views, from, c, name)
}

/// A chain leads from one of `from` to exactly this name.
pub open spec fn reached(views: Seq<ViewV>, from: Seq<Seq<char>>, n: Seq<char>) -> bool {
    exists|c: Seq<Seq<char>>|
        c.len() > 0 && from.contains(c[0]) && #[trigger] is_chain(views, c) && c.last() == n
}

/// How many are not set.
pub open spec fn unset(v: Seq<bool>) -> nat
    decreases v.len(),
{
    if v.len() == 0 {
        0
    } else {
        unset(v.drop_last()) + (if v.last() {
            0nat
        } else {
            1nat
        })
    }
}

proof fn lemma_set(v: Seq<bool>, p: int)
    requires
        0 <= p < v.len(),
        !v[p],
    ensures
        unset(v.update(p, true)) + 1 == unset(v),
    decreases v.len(),
{
    let w = v.update(p, true);
    if p == v.len() - 1 {
        assert(w.drop_last() =~= v.drop_last());
    } else {
        assert(w.drop_last() =~= v.drop_last().update(p, true));
        lemma_set(v.drop_last(), p);
    }
}

proof fn lemma_start(views: Seq<ViewV>, from: Seq<Seq<char>>, n: Seq<char>)
    requires
        from.contains(n),
    ensures
        reached(views, from, n),
{
    let c = seq![n];
    assert(is_chain(views, c));
    assert(c.last() == n);
}

proof fn lemma_step(views: Seq<ViewV>, from: Seq<Seq<char>>, n: Seq<char>, m: Seq<char>)
    requires
        reached(views, from, n),
        rests_on(views, n).contains(m),
    ensures
        reached(views, from, m),
{
    let c = choose|c: Seq<Seq<char>>|
        c.len() > 0 && from.contains(c[0]) && #[trigger] is_chain(views, c) && c.last() == n;
    let d = c.push(m);
    assert forall|k: int| 0 <= k < d.len() - 1 implies rests_on(
        views,
        #[trigger] d[k],
    ).contains(d[k + 1]) by {
        if k < c.len() - 1 {
            assert(rests_on(views, c[k]).contains(c[k + 1]));
        }
    }
    assert(is_chain(views, d));
    assert(d[0] == c[0]);
    assert(d.last() == m);
}

/// A list that holds its start and all that its views rest on holds every chain.
proof fn lemma_closed(
    views: Seq<ViewV>,
    from: Seq<Seq<char>>,
    names: Seq<Seq<char>>,
    c: Seq<Seq<char>>,
    k: int,
)
    requires
        forall|x: Seq<char>| #[trigger] from.contains(x) ==> names.contains(x),
        forall|a: int, x: Seq<char>|
            0 <= a < names.len() && #[trigger] rests_on(views, names[a]).contains(x)
                ==> names.contains(x),
        c.len() > 0,
        from.contains(c[0]),
        is_chain(views, c),
        0 <= k < c.len(),
    ensures
        names.contains(c[k]),
    decreases k,
{
    if k > 0 {
        lemma_closed(views, from, names, c, k - 1);
        let a = choose|a: int| 0 <= a < names.len() && names[a] == c[k - 1];
        assert(rests_on(views, c[k - 1]).contains(c[k]));
        assert(rests_on(views, names[a]).contains(c[k]));
    }
}

/// What is known while the names that a view rests on are followed.
pub open spec fn followed(
    views: Seq<ViewV>,
    from: Seq<Seq<char>>,
    names: Seq<Seq<char>>,
    done: Seq<bool>,
    i: int,
) -> bool {
    &&& done.len() == views.len()
    &&& forall|x: Seq<char>| #[trigger] from.contains(x) ==> names.contains(x)
    &&& forall|a: int| 0 <= a < names.len() ==> reached(views, from, #[trigger] names[a])
    &&& forall|a: int|
        0 <= a < i ==> match name_pos(view_names(views), #[trigger] names[a], 0) {
            Some(p) => done[p],
            None => true,
        }
    &&& forall|p: int, x: Seq<char>|
        0 <= p < views.len() && done[p] && #[trigger] outer_names(views[p].query).contains(x)
            ==> names.contains(x)
}

/// Whether a view of that name and body would rest on itself.
pub fn view_would_cycle(store: &Store, new_name: &str, query: &SelectStmt) -> (r: bool)
    ensures
        r == leads_to(store@.views, outer_names(query@), new_name@),
{
    let ghost views = store@.views;
    let ghost from = outer_names(query@);
    let mut names = referenced_relations(query);
    let mut done: Vec<bool> = Vec::new();
    let mut v: usize = 0;
    while v < store.views.len()
        invariant
            v <= store.views.len(),
            done@.len() == v,
            forall|p: int| 0 <= p < v ==> !done@[p],
        decreases store.views.len() - v,
    {
        done.push(false);
        v += 1;
    }
    proof {
        assert(strings_view(names@) == from);
        assert forall|a: int| 0 <= a < from.len() implies reached(
            views,
            from,
            #[trigger] from[a],
        ) by {
            assert(from.contains(from[a]));
            lemma_start(views, from, from[a]);
        }
    }
    let mut i: usize = 0;
    while i < names.len()
        invariant
            i <= names.len(),
            views == store@.views,
            from == outer_names(query@),
            done.len() == store.views.len(),
            followed(views, from, strings_view(names@), done@, i as int),
            forall|a: int|
                0 <= a < i ==> !same_name(#[trigger] strings_view(names@)[a], new_name@),
        decreases unset(done@), names.len() - i,
    {
        let ghost nv = strings_view(names@);
        let ghost d0 = done@;
        assert(nv[i as int] == names@[i as int]@);
        if names_match(&names[i], new_name) {
            proof {
                assert(reached(views, from, nv[i as int]));
                let c = choose|c: Seq<Seq<char>>|
                    c.len() > 0 && from.contains(c[0]) && #[trigger] is_chain(views, c)
                        && c.last() == nv[i as int];
                assert(chain_between(views, from, c, new_name@));
            }
            return true;
        }
        match find_view(store, &names[i]) {
            Some(p) => {
                if !done[p] {
                    done.set(p, true);
                    let mut more = referenced_relations(&store.views[p].query);
                    let ghost mv = strings_view(more@);
                    assert(views[p as int] == store.views@[p as int]@);
                    names.append(&mut more);
                    proof {
                        let now = strings_view(names@);
                        assert(now =~= nv + mv);
                        lemma_set(d0, p as int);
                        lemma_followed(views, from, nv, d0, i as int, p as int);
                    }
                }
            },
            None => {},
        }
        proof {
            let now = strings_view(names@);
            assert(now[i as int] == nv[i as int]);
            assert forall|a: int| 0 <= a < i + 1 implies !same_name(
                #[trigger] now[a],
                new_name@,
            ) by {
                assert(now[a] == nv[a]);
            }
        }
        i += 1;
    }
    proof {
        let nv = strings_view(names@);
        if leads_to(views, from, new_name@) {
            let c = choose|c: Seq<Seq<char>>| chain_between(views, from, c, new_name@);
            assert forall|a: int, x: Seq<char>|
                0 <= a < nv.len() && #[trigger] rests_on(views, nv[a]).contains(
                    x,
                ) implies nv.contains(x) by {
                lemma_name_pos(view_names(views), nv[a], 0);
                let p = name_pos(view_names(views), nv[a], 0)->0;
                assert(done@[p]);
                assert(outer_names(views[p].query).contains(x));
            }
            lemma_closed(views, from, nv, c, c.len() - 1);
            let a = choose|a: int| 0 <= a < nv.len() && nv[a] == c[c.len() - 1];
            assert(!same_name(nv[a], new_name@));
        }
    }
    false
}

/// Following one more view.
proof fn lemma_followed(
    views: Seq<ViewV>,
    from: Seq<Seq<char>>,
    names: Seq<Seq<char>>,
    done: Seq<bool>,
    i: int,
    p: int,
)
    requires
        followed(views, from, names, done, i),
        0 <= i < names.len(),
        name_pos(view_names(views), names[i], 0) == Some(p),
        0 <= p < views.len(),
        !done[p],
    ensures
        followed(
            views,
            from,
            names + outer_names(views[p].query),
            done.update(p, true),
            i + 1,
        ),
{
    let mv = outer_names(views[p].query);
    let now = names + mv;
    let d = done.update(p, true);
    assert(rests_on(views, names[i]) == mv);
    assert forall|x: Seq<char>| #[trigger] names.contains(x) implies now.contains(x) by {
        let a = choose|a: int| 0 <= a < names.len() && names[a] == x;
        assert(now[a] == x);
    }
    assert forall|x: Seq<char>| #[trigger] mv.contains(x) implies now.contains(x) by {
        let a = choose|a: int| 0 <= a < mv.len() && mv[a] == x;
        assert(now[names.len() + a] == x);
    }
    assert forall|a: int| 0 <= a < now.len() implies reached(views, from, #[trigger] now[a]) by {
        if a < names.len() {
            assert(reached(views, from, names[a]));
        } else {
            let x = mv[a - names.len()];
            assert(mv.contains(x));
            assert(reached(views, from, names[i]));
            lemma_step(views, from, names[i], x);
        }
    }
    assert forall|a: int| 0 <= a < i + 1 implies match name_pos(
        view_names(views),
        #[trigger] now[a],
        0,
    ) {
        Some(q) => d[q],
        None => true,
    } by {
        assert(now[a] == names[a]);
        lemma_name_pos(view_names(views), names[a], 0);
    }
    assert forall|q: int, x: Seq<char>|
        0 <= q < views.len() && d[q] && #[trigger] outer_names(views[q].query).contains(
            x,
        ) implies now.contains(x) by {
        if q == p {
            assert(mv.contains(x));
        } else {
            assert(done[q]);
            assert(names.contains(x));
        }
    }
}

/// Where the view of a name stands.
fn find_view(store: &Store, name: &str) -> (r: Option<usize>)
    ensures
        match r {
            Some(p) => name_pos(view_names(store@.views), name@, 0) == Some(p as int) && p
                < store.views.len(),
            None => name_pos(view_names(store@.views), name@, 0) is None,
        },
{
    let ghost nv = view_names(store@.views);
    let mut i: usize = 0;
    while i < store.views.len()
        invariant
            i <= store.views.len(),
            nv == view_names(store@.views),
            name_pos(nv, name@, i as int) == name_pos(nv, name@, 0),
        decreases store.views.len() - i,
    {
        assert(store@.views[i as int] == store.views@[i as int]@);
        if names_match(&store.views[i].name, name) {
            return Some(i);
        }
        i += 1;
    }
    None
}

// ---- no view rests on itself ----------------------------------------------------------------------

/// No chain leads from what a view rests on back to it.
pub open spec fn acyclic(views: Seq<ViewV>) -> bool {
    forall|n: Seq<char>| !#[trigger] leads_to(views, rests_on(views, n), n)
}

proof fn lemma_same_rests(views: Seq<ViewV>, a: Seq<char>, b: Seq<char>)
    requires
        same_name(a, b),
    ensures
        rests_on(views, a) == rests_on(views, b),
{
    lemma_same_pos(view_names(views), a, b, 0);
}

proof fn lemma_same_pos(names: Seq<Seq<char>>, a: Seq<char>, b: Seq<char>, i: int)
    requires
        same_name(a, b),
    ensures
        name_pos(names, a, i) == name_pos(names, b, i),
    decreases names.len() - i,
{
    if 0 <= i < names.len() {
        lemma_same_pos(names, a, b, i + 1);
    }
}

/// What a view set under `v.name` leaves of the others.
proof fn lemma_put_rests(views: Seq<ViewV>, v: ViewV, n: Seq<char>)
    ensures
        rests_on(put_view(views, v), n) == (if same_name(n, v.name) {
            outer_names(v.query)
        } else {
            rests_on(views, n)
        }),
{
    let now = put_view(views, v);
    let a = view_names(views);
    let b = view_names(now);
    lemma_name_pos(a, v.name, 0);
    lemma_name_pos(a, n, 0);
    lemma_name_pos(b, n, 0);
    match name_pos(a, v.name, 0) {
        Some(p) => {
            assert(now =~= views.update(p, v));
            assert forall|k: int| 0 <= k < b.len() && k != p implies #[trigger] b[k] == a[k] by {}
            assert(b[p] == v.name);
            if same_name(n, v.name) {
                assert(same_name(b[p], n));
                let q = name_pos(b, n, 0)->0;
                if q < p {
                    assert(same_name(a[q], v.name));
                }
            } else {
                match name_pos(b, n, 0) {
                    Some(q) => {
                        assert(q != p);
                        assert(same_name(a[q], n));
                        let r = name_pos(a, n, 0)->0;
                        if r < q {
                            assert(same_name(a[r], n));
                            assert(r != p);
                            assert(same_name(b[r], n));
                        }
                    },
                    None => {
                        match name_pos(a, n, 0) {
                            Some(r) => {
                                assert(r != p);
                                assert(same_name(b[r], n));
                            },
                            None => {},
                        }
                    },
                }
            }
        },
        None => {
            assert(now =~= views.push(v));
            let e = views.len() as int;
            assert forall|k: int| 0 <= k < e implies #[trigger] b[k] == a[k] by {}
            assert(b[e] == v.name);
            if same_name(n, v.name) {
                assert(same_name(b[e], n));
                let q = name_pos(b, n, 0)->0;
                if q < e {
                    assert(same_name(a[q], v.name));
                }
            } else {
                match name_pos(b, n, 0) {
                    Some(q) => {
                        assert(q != e);
                        assert(same_name(a[q], n));
                        let r = name_pos(a, n, 0)->0;
                        if r < q {
                            assert(same_name(b[r], n));
                        }
                    },
                    None => {
                        match name_pos(a, n, 0) {
                            Some(r) => {
                                assert(same_name(b[r], n));
                            },
                            None => {},
                        }
                    },
                }
            }
        },
    }
}

/// A chain that follows the new view nowhere is one of the old views.
proof fn lemma_old_chain(views: Seq<ViewV>, v: ViewV, c: Seq<Seq<char>>)
    requires
        is_chain(put_view(views, v), c),
        forall|k: int| 0 <= k < c.len() - 1 ==> !same_name(#[trigger] c[k], v.name),
    ensures
        is_chain(views, c),
{
    assert forall|k: int| 0 <= k < c.len() - 1 implies rests_on(
        views,
        #[trigger] c[k],
    ).contains(c[k + 1]) by {
        lemma_put_rests(views, v, c[k]);
        assert(rests_on(put_view(views, v), c[k]).contains(c[k + 1]));
    }
}

proof fn lemma_sub_chain(views: Seq<ViewV>, c: Seq<Seq<char>>, a: int, b: int)
    requires
        is_chain(views, c),
        0 <= a <= b <= c.len(),
    ensures
        is_chain(views, c.subrange(a, b)),
{
    let d = c.subrange(a, b);
    assert forall|k: int| 0 <= k < d.len() - 1 implies rests_on(
        views,
        #[trigger] d[k],
    ).contains(d[k + 1]) by {
        assert(rests_on(views, c[a + k]).contains(c[a + k + 1]));
    }
}

/// The first place from `i` on, before the last, where the chain follows a name.
pub open spec fn first_at(c: Seq<Seq<char>>, name: Seq<char>, i: int) -> Option<int>
    decreases c.len() - i,
{
    if i < 0 || i >= c.len() {
        None
    } else if same_name(c[i], name) {
        Some(i)
    } else {
        first_at(c, name, i + 1)
    }
}

proof fn lemma_first_at(c: Seq<Seq<char>>, name: Seq<char>, i: int)
    requires
        0 <= i,
    ensures
        match first_at(c, name, i) {
            Some(k) => i <= k < c.len() && same_name(c[k], name) && forall|j: int|
                i <= j < k ==> !same_name(#[trigger] c[j], name),
            None => forall|j: int| i <= j < c.len() ==> !same_name(#[trigger] c[j], name),
        },
    decreases c.len() - i,
{
    if i < c.len() && !same_name(c[i], name) {
        lemma_first_at(c, name, i + 1);
    }
}

/// A chain from what the new view rests on to its name, cut at the first such name,
/// is a chain of the old views.
proof fn lemma_cut(views: Seq<ViewV>, v: ViewV, c: Seq<Seq<char>>)
    requires
        chain_between(put_view(views, v), outer_names(v.query), c, v.name),
    ensures
        leads_to(views, outer_names(v.query), v.name),
{
    let now = put_view(views, v);
    lemma_first_at(c, v.name, 0);
    assert(same_name(c[c.len() - 1], v.name));
    let k = first_at(c, v.name, 0)->0;
    let d = c.subrange(0, k + 1);
    lemma_sub_chain(now, c, 0, k + 1);
    assert forall|j: int| 0 <= j < d.len() - 1 implies !same_name(#[trigger] d[j], v.name) by {
        assert(d[j] == c[j]);
    }
    lemma_old_chain(views, v, d);
    assert(d.last() == c[k]);
    assert(d[0] == c[0]);
    assert(chain_between(views, outer_names(v.query), d, v.name));
}

/// A view that is let through keeps the views free of cycles: where no view rests
/// on itself, and no chain leads from what the new one names back to its name,
/// none rests on itself afterwards.
pub proof fn law_views_stay_acyclic(views: Seq<ViewV>, v: ViewV)
    requires
        acyclic(views),
        !leads_to(views, outer_names(v.query), v.name),
    ensures
        acyclic(put_view(views, v)),
{
    let now = put_view(views, v);
    assert forall|n: Seq<char>| !#[trigger] leads_to(now, rests_on(now, n), n) by {
        if leads_to(now, rests_on(now, n), n) {
            let c = choose|c: Seq<Seq<char>>| chain_between(now, rests_on(now, n), c, n);
            lemma_put_rests(views, v, n);
            if same_name(n, v.name) {
                assert(lower_text(n) == lower_text(v.name));
                assert(chain_between(now, outer_names(v.query), c, v.name));
                lemma_cut(views, v, c);
            } else {
                lemma_first_at(c, v.name, 0);
                match first_at(c, v.name, 0) {
                    None => {
                        lemma_old_chain(views, v, c);
                        assert(chain_between(views, rests_on(views, n), c, n));
                        assert(leads_to(views, rests_on(views, n), n));
                    },
                    Some(k) => {
                        // Turned round: from behind the new view to `n`, and on from
                        // what `n` rests on to the new view.
                        let e = c.len() as int;
                        assert(k < e - 1);
                        let tail = c.subrange(k + 1, e);
                        let head = c.subrange(0, k + 1);
                        lemma_sub_chain(now, c, k + 1, e);
                        lemma_sub_chain(now, c, 0, k + 1);
                        let d = tail + head;
                        assert forall|j: int| 0 <= j < d.len() - 1 implies rests_on(
                            now,
                            #[trigger] d[j],
                        ).contains(d[j + 1]) by {
                            if j < tail.len() - 1 {
                                assert(rests_on(now, tail[j]).contains(tail[j + 1]));
                            } else if j == tail.len() - 1 {
                                assert(d[j] == c[e - 1]);
                                assert(d[j + 1] == c[0]);
                                lemma_same_rests(now, c[e - 1], n);
                            } else {
                                let m = j - tail.len();
                                assert(rests_on(now, head[m]).contains(head[m + 1]));
                            }
                        }
                        assert(is_chain(now, d));
                        assert(rests_on(now, c[k]).contains(c[k + 1]));
                        lemma_put_rests(views, v, c[k]);
                        assert(d[0] == c[k + 1]);
                        assert(d.last() == c[k]);
                        assert(chain_between(now, outer_names(v.query), d, v.name));
                        lemma_cut(views, v, d);
                    },
                }
            }
        }
    }
}

} // verus!
