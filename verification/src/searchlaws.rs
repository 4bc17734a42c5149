//! How much a search of a vector index finds.
use vstd::prelude::*;
use crate::graph::{
    above, descended, graph_ok, known, law_layer_is_sorted, layer_found, left, lemma_place,
    lemma_seen_left, lemma_unseen, lemma_unseen_flags, lemma_unseen_natural, links, nearer, place,
    put, searched, seen, seen_from, shown_from, sorted, start, total_rank, unseen, walk,
    wanted_from, GraphV, LayerV, NodeV, Scored, Want,
};
use crate::graphlaws::{
    fairly_found, law_search_is_fair, lemma_descended_inside, lemma_walked_fairly,
};
use crate::ieee::SIGN_BIT;

verus! {

/// Nodes whose links on the bottom layer lead to none but themselves.
pub open spec fn leads_nowhere_else(nodes: Seq<NodeV>, s: Set<int>) -> bool {
    forall|a: int, j: int|
        0 <= a < nodes.len() && s.contains(a) && 0 <= j < links(nodes, a as usize, 0).len()
            ==> s.contains(#[trigger] links(nodes, a as usize, 0)[j] as int)
}

/// Whether the bottom layer is connected: from any node, the links lead to every other.
pub open spec fn connected_below(nodes: Seq<NodeV>) -> bool {
    forall|s: Set<int>, a: int, b: int|
        #![trigger s.contains(a), s.contains(b)]
        leads_nowhere_else(nodes, s) && 0 <= a < nodes.len() && s.contains(a) && 0 <= b
            < nodes.len() ==> s.contains(b)
}

spec fn holds_node(v: Seq<Scored>, x: int) -> bool {
    exists|i: int| 0 <= i < v.len() && (#[trigger] v[i]).idx == x
}

/// Whether every link of a node leads to one that was seen.
spec fn followed(nodes: Seq<NodeV>, visited: Seq<bool>, x: int) -> bool {
    forall|j: int|
        0 <= j < links(nodes, x as usize, 0).len() ==> {
            let nb = #[trigger] links(nodes, x as usize, 0)[j];
            nb < visited.len() && visited[nb as int]
        }
}

/// Nothing that was seen is lost: it is found, and is followed or will be. `but` is
/// being followed.
spec fn nothing_lost(nodes: Seq<NodeV>, st: LayerV, but: int) -> bool {
    &&& st.found.len() + unseen(st.visited, nodes.len() as int) == nodes.len()
    &&& forall|x: int|
        0 <= x < nodes.len() && #[trigger] st.visited[x] ==> holds_node(st.found, x) && (
        holds_node(st.cand, x) || followed(nodes, st.visited, x) || x == but)
}

/// What is kept while a layer is searched.
spec fn in_search(nodes: Seq<NodeV>, st: LayerV, ef: usize, but: int) -> bool {
    &&& st.visited.len() == nodes.len()
    &&& forall|i: int| 0 <= i < st.cand.len() ==> (#[trigger] st.cand[i]).idx < nodes.len()
    &&& st.found.len() <= nodes.len()
    &&& (ef < nodes.len() && st.found.len() >= ef) || nothing_lost(nodes, st, but)
}

proof fn lemma_put_holds(v: Seq<Scored>, s: Scored, x: int)
    ensures
        put(v, s).len() == v.len() + 1,
        holds_node(put(v, s), x) <==> holds_node(v, x) || s.idx == x,
{
    lemma_place(v, s, 0);
    let p = place(v, s, 0);
    let w = put(v, s);
    if holds_node(v, x) {
        let i = choose|i: int| 0 <= i < v.len() && (#[trigger] v[i]).idx == x;
        if i < p {
            assert(w[i] == v[i]);
        } else {
            assert(w[i + 1] == v[i]);
        }
    }
    assert(w[p] == s);
    if holds_node(w, x) {
        let i = choose|i: int| 0 <= i < w.len() && (#[trigger] w[i]).idx == x;
        if i < p {
            assert(v[i] == w[i]);
        } else if i > p {
            assert(v[i - 1] == w[i]);
        }
    }
}

proof fn lemma_unseen_some(v: Seq<bool>, n: int, x: int)
    requires
        0 <= x < n <= v.len(),
        !v[x],
    ensures
        unseen(v, n) >= 1,
    decreases n,
{
    lemma_unseen_natural(v, n - 1);
    if x < n - 1 {
        lemma_unseen_some(v, n - 1, x);
    }
}

proof fn lemma_seen_keeps(
    nodes: Seq<NodeV>,
    st: LayerV,
    k: Map<u128, u64>,
    q: usize,
    ef: usize,
    nb: usize,
    but: int,
)
    requires
        in_search(nodes, st, ef, but),
        nb < nodes.len() && !st.visited[nb as int] ==> known(k, q, nb) is Some,
    ensures
        in_search(nodes, seen(st, k, q, ef, nb), ef, but),
        forall|x: int|
            0 <= x < nodes.len() && st.visited[x] ==> #[trigger] seen(
                st,
                k,
                q,
                ef,
                nb,
            ).visited[x],
        nb < nodes.len() ==> seen(st, k, q, ef, nb).visited[nb as int],
{
    let n = nodes.len() as int;
    let t = seen(st, k, q, ef, nb);
    if nb < nodes.len() && !st.visited[nb as int] {
        let dist = known(k, q, nb)->0;
        let s = Scored { dist, idx: nb };
        lemma_unseen(st.visited, nb as int, n);
        lemma_unseen_some(st.visited, n, nb as int);
        lemma_put_holds(st.cand, s, 0);
        lemma_put_holds(st.found, s, 0);
        lemma_place(st.cand, s, 0);
        let p = place(st.cand, s, 0);
        assert forall|i: int| 0 <= i < t.cand.len() implies (#[trigger] t.cand[i]).idx
            < nodes.len() by {
            if t.cand != st.cand {
                let w = put(st.cand, s);
                if i < p {
                    assert(w[i] == st.cand[i]);
                } else if i > p {
                    assert(w[i] == st.cand[i - 1]);
                }
            }
        }
        if !(ef < nodes.len() && st.found.len() >= ef) {
            assert(nothing_lost(nodes, st, but));
            assert(st.found.len() < ef);
            assert(t.found == put(st.found, s));
            assert forall|x: int| 0 <= x < n && #[trigger] t.visited[x] implies holds_node(
                t.found,
                x,
            ) && (holds_node(t.cand, x) || followed(nodes, t.visited, x) || x == but) by {
                lemma_put_holds(st.cand, s, x);
                lemma_put_holds(st.found, s, x);
                if x != nb {
                    assert(st.visited[x]);
                    if followed(nodes, st.visited, x) {
                        assert forall|j: int| 0 <= j < links(nodes, x as usize, 0).len() implies {
                            let y = #[trigger] links(nodes, x as usize, 0)[j];
                            y < t.visited.len() && t.visited[y as int]
                        } by {
                            let y = links(nodes, x as usize, 0)[j];
                            assert(y < st.visited.len() && st.visited[y as int]);
                        }
                    }
                }
            }
        }
    }
}

proof fn lemma_nothing_wanted(
    visited: Seq<bool>,
    k: Map<u128, u64>,
    q: usize,
    nbs: Seq<usize>,
    j: int,
    acc: Want,
)
    requires
        0 <= j,
        wanted_from(visited, k, q, nbs, j, acc).len() == 0,
    ensures
        acc.len() == 0,
        forall|i: int|
            j <= i < nbs.len() && #[trigger] nbs[i] < visited.len() && !visited[nbs[i] as int]
                ==> known(k, q, nbs[i]) is Some,
    decreases nbs.len() - j,
{
    if j < nbs.len() {
        if nbs[j] < visited.len() && !visited[nbs[j] as int] && known(k, q, nbs[j]) is None {
            lemma_nothing_wanted(visited, k, q, nbs, j + 1, acc.push((q, nbs[j])));
        } else {
            lemma_nothing_wanted(visited, k, q, nbs, j + 1, acc);
        }
    }
}

proof fn lemma_all_seen_keep(
    nodes: Seq<NodeV>,
    st: LayerV,
    k: Map<u128, u64>,
    q: usize,
    ef: usize,
    nbs: Seq<usize>,
    j: int,
    but: int,
)
    requires
        0 <= j,
        in_search(nodes, st, ef, but),
        forall|i: int|
            j <= i < nbs.len() && #[trigger] nbs[i] < nodes.len() && !st.visited[nbs[i] as int]
                ==> known(k, q, nbs[i]) is Some,
    ensures
        ({
            let t = seen_from(st, k, q, ef, nbs, j);
            &&& in_search(nodes, t, ef, but)
            &&& forall|x: int| 0 <= x < nodes.len() && st.visited[x] ==> #[trigger] t.visited[x]
            &&& forall|i: int|
                j <= i < nbs.len() && #[trigger] nbs[i] < nodes.len() ==> t.visited[nbs[i] as int]
        }),
    decreases nbs.len() - j,
{
    if j < nbs.len() {
        let u = seen(st, k, q, ef, nbs[j]);
        lemma_seen_keeps(nodes, st, k, q, ef, nbs[j], but);
        assert forall|i: int|
            j + 1 <= i < nbs.len() && #[trigger] nbs[i] < nodes.len()
                && !u.visited[nbs[i] as int] implies known(k, q, nbs[i]) is Some by {
            assert(!st.visited[nbs[i] as int]);
        }
        lemma_all_seen_keep(nodes, u, k, q, ef, nbs, j + 1, but);
    }
}

/// All the nodes are found, or as many as the search is wide.
spec fn found_enough(nodes: Seq<NodeV>, v: Seq<Scored>, ef: usize) -> bool {
    &&& v.len() <= nodes.len()
    &&& (ef < nodes.len() && v.len() >= ef) || (v.len() == nodes.len() && forall|x: int|
        0 <= x < nodes.len() ==> #[trigger] holds_node(v, x))
}

proof fn lemma_none_unseen(v: Seq<bool>, n: int, x: int)
    requires
        0 <= x < n <= v.len(),
        unseen(v, n) == 0,
    ensures
        v[x],
{
    if !v[x] {
        lemma_unseen_some(v, n, x);
    }
}

proof fn lemma_all_are_seen(v: Seq<bool>, n: int)
    requires
        0 <= n <= v.len(),
        forall|x: int| 0 <= x < n ==> #[trigger] v[x],
    ensures
        unseen(v, n) == 0,
    decreases n,
{
    if n > 0 {
        lemma_all_are_seen(v, n - 1);
    }
}

proof fn lemma_walk_finds(
    nodes: Seq<NodeV>,
    k: Map<u128, u64>,
    q: usize,
    ef: usize,
    st: LayerV,
    steps: nat,
    entry: int,
)
    requires
        connected_below(nodes),
        nodes.len() <= usize::MAX,
        forall|a: int, j: int|
            0 <= a < nodes.len() && 0 <= j < links(nodes, a as usize, 0).len() ==> #[trigger] links(
                nodes,
                a as usize,
                0,
            )[j] < nodes.len(),
        in_search(nodes, st, ef, -1),
        0 <= entry < nodes.len(),
        st.visited[entry],
        left(st) <= steps,
    ensures
        walk(nodes, k, q, ef, 0, st, steps) matches Ok(v) ==> found_enough(nodes, v, ef),
    decreases steps,
{
    let n = nodes.len() as int;
    lemma_unseen_natural(st.visited, n);
    if steps == 0 || st.cand.len() == 0 {
        if nothing_lost(nodes, st, -1) {
            let s = Set::new(|x: int| 0 <= x < n && st.visited[x]);
            assert(leads_nowhere_else(nodes, s)) by {
                assert forall|a: int, j: int|
                    0 <= a < n && s.contains(a) && 0 <= j < links(
                        nodes,
                        a as usize,
                        0,
                    ).len() implies s.contains(#[trigger] links(nodes, a as usize, 0)[j] as int) by {
                    assert(st.visited[a]);
                    assert(!holds_node(st.cand, a));
                    assert(followed(nodes, st.visited, a));
                    let nb = links(nodes, a as usize, 0)[j];
                    assert(nb < st.visited.len() && st.visited[nb as int]);
                }
            }
            assert(s.contains(entry));
            assert forall|x: int| 0 <= x < n implies #[trigger] st.visited[x] by {
                assert(s.contains(x));
            }
            lemma_all_are_seen(st.visited, n);
            assert forall|x: int| 0 <= x < n implies #[trigger] holds_node(st.found, x) by {
                assert(st.visited[x]);
            }
        }
    } else {
        let c = st.cand[0];
        if above(c.dist, st.found) && st.found.len() >= ef {
            if nothing_lost(nodes, st, -1) && ef >= nodes.len() {
                assert forall|x: int| 0 <= x < n implies #[trigger] holds_node(st.found, x) by {
                    lemma_none_unseen(st.visited, n, x);
                }
            }
        } else {
            let nbs = links(nodes, c.idx, 0);
            let want = wanted_from(st.visited, k, q, nbs, 0, Seq::empty());
            if want.len() == 0 {
                let at = c.idx as int;
                let t = LayerV { cand: st.cand.drop_first(), ..st };
                let u = seen_from(t, k, q, ef, nbs, 0);
                lemma_nothing_wanted(st.visited, k, q, nbs, 0, Seq::empty());
                assert(in_search(nodes, t, ef, at)) by {
                    assert forall|i: int| 0 <= i < t.cand.len() implies (#[trigger] t.cand[i]).idx
                        < nodes.len() by {
                        assert(t.cand[i] == st.cand[i + 1]);
                    }
                    if nothing_lost(nodes, st, -1) {
                        assert forall|x: int| 0 <= x < n && #[trigger] t.visited[x] implies holds_node(
                            t.found,
                            x,
                        ) && (holds_node(t.cand, x) || followed(nodes, t.visited, x) || x == at) by {
                            assert(st.visited[x]);
                            if holds_node(st.cand, x) {
                                let i = choose|i: int|
                                    0 <= i < st.cand.len() && (#[trigger] st.cand[i]).idx == x;
                                if i > 0 {
                                    assert(t.cand[i - 1] == st.cand[i]);
                                }
                            }
                        }
                    }
                }
                lemma_all_seen_keep(nodes, t, k, q, ef, nbs, 0, at);
                assert(followed(nodes, u.visited, at)) by {
                    assert(nbs == links(nodes, at as usize, 0));
                    assert forall|j: int| 0 <= j < nbs.len() implies {
                        let nb = #[trigger] links(nodes, at as usize, 0)[j];
                        nb < u.visited.len() && u.visited[nb as int]
                    } by {
                        assert(links(nodes, at as usize, 0)[j] < nodes.len());
                        assert(nbs[j] < nodes.len());
                    }
                }
                assert(in_search(nodes, u, ef, -1));
                lemma_seen_left(t, k, q, ef, nbs, 0);
                lemma_walk_finds(nodes, k, q, ef, u, (steps - 1) as nat, entry);
            }
        }
    }
}

proof fn lemma_layer_finds(nodes: Seq<NodeV>, k: Map<u128, u64>, q: usize, ep: usize, ef: usize)
    requires
        connected_below(nodes),
        crate::graph::links_ok(nodes),
        nodes.len() <= usize::MAX,
        ep < nodes.len(),
        ef > 0,
        layer_found(nodes, k, q, ep, ef, 0) is Ok,
    ensures
        found_enough(nodes, layer_found(nodes, k, q, ep, ef, 0)->Ok_0, ef),
{
    let n = nodes.len() as int;
    let dist = known(k, q, ep)->0;
    let st = start(nodes, ep, dist);
    lemma_unseen_flags(nodes.len(), ep, n);
    assert(in_search(nodes, st, ef, -1)) by {
        assert forall|x: int| 0 <= x < n && #[trigger] st.visited[x] implies holds_node(
            st.found,
            x,
        ) && (holds_node(st.cand, x) || followed(nodes, st.visited, x) || x == -1) by {
            assert(st.found[0].idx == x);
            assert(st.cand[0].idx == x);
        }
    }
    assert forall|a: int, j: int|
        0 <= a < n && 0 <= j < links(nodes, a as usize, 0).len() implies #[trigger] links(
        nodes,
        a as usize,
        0,
    )[j] < nodes.len() by {
        assert(nodes[a].neighbors[0][j] < nodes.len());
    }
    lemma_walk_finds(nodes, k, q, ef, st, nodes.len(), ep as int);
}

// ---- what is shown --------------------------------------------------------------------------------

proof fn lemma_all_shown(
    nodes: Seq<NodeV>,
    found: Seq<Scored>,
    i: int,
    acc: Seq<(u64, u64)>,
    want: nat,
)
    requires
        0 <= i <= found.len(),
        acc.len() <= want,
        forall|x: int| 0 <= x < nodes.len() ==> !(#[trigger] nodes[x]).removed,
        forall|x: int| 0 <= x < found.len() ==> (#[trigger] found[x]).idx < nodes.len(),
    ensures
        shown_from(nodes, found, i, acc, want).len() == (if acc.len() + found.len() - i < want {
            acc.len() + found.len() - i
        } else {
            want as int
        }),
    decreases found.len() - i,
{
    if i < found.len() && acc.len() < want {
        assert(!nodes[found[i].idx as int].removed);
        lemma_all_shown(
            nodes,
            found,
            i + 1,
            acc.push((nodes[found[i].idx as int].vid, found[i].dist)),
            want,
        );
    }
}

/// A search for `want` vectors is complete in number, however narrow it is meant to be:
/// where the bottom layer is connected and nothing was taken out, it gives `want` of
/// them, or all where there are fewer.
pub proof fn law_search_gives_enough(g: GraphV, k: Map<u128, u64>, want: usize, ef: Option<usize>)
    requires
        graph_ok(g),
        g.nodes.len() < usize::MAX,
        g.entry is Some <==> g.nodes.len() > 0,
        connected_below(g.nodes),
        forall|x: int| 0 <= x < g.nodes.len() ==> !(#[trigger] g.nodes[x]).removed,
        searched(g, k, want, ef) is Ok,
    ensures
        searched(g, k, want, ef)->Ok_0.len() == (if want <= g.nodes.len() {
            want as nat
        } else {
            g.nodes.len()
        }),
{
    if g.entry is Some && want > 0 {
        let q = g.nodes.len() as usize;
        let given = match ef {
            Some(n) => n,
            None => g.def.params.ef_search,
        };
        let wide = if given < want {
            want
        } else {
            given
        };
        let ep = descended(g.nodes, k, q, g.entry->0, g.max_level, 0)->Ok_0;
        lemma_descended_inside(g.nodes, k, q, g.entry->0, g.max_level, 0);
        let found = layer_found(g.nodes, k, q, ep, wide, 0)->Ok_0;
        lemma_layer_finds(g.nodes, k, q, ep, wide);
        lemma_found_inside(g.nodes, k, q, ep, wide);
        lemma_all_shown(g.nodes, found, 0, Seq::empty(), want as nat);
    }
}

proof fn lemma_found_inside(nodes: Seq<NodeV>, k: Map<u128, u64>, q: usize, ep: usize, ef: usize)
    requires
        ep < nodes.len(),
        layer_found(nodes, k, q, ep, ef, 0) is Ok,
    ensures
        forall|x: int|
            0 <= x < layer_found(nodes, k, q, ep, ef, 0)->Ok_0.len() ==> (#[trigger] layer_found(
                nodes,
                k,
                q,
                ep,
                ef,
                0,
            )->Ok_0[x]).idx < nodes.len(),
{
    crate::graphlaws::lemma_layer_inside(nodes, k, q, ep, ef, 0);
}

/// What is shown grows, and what is passed over is no nearer than what is shown.
proof fn lemma_shown_order(
    nodes: Seq<NodeV>,
    found: Seq<Scored>,
    i: int,
    acc: Seq<(u64, u64)>,
    want: nat,
    a: int,
)
    requires
        0 <= i <= found.len(),
        0 <= a < found.len(),
        found[a].idx < nodes.len(),
        !nodes[found[a].idx as int].removed,
        sorted(found),
        forall|e: int, b: int|
            0 <= e < acc.len() && i <= b < found.len() ==> total_rank((#[trigger] acc[e]).1)
                <= total_rank((#[trigger] found[b]).dist),
        a < i ==> acc.contains((nodes[found[a].idx as int].vid, found[a].dist)),
        acc.len() <= want,
    ensures
        ({
            let v = shown_from(nodes, found, i, acc, want);
            &&& forall|e: int| 0 <= e < acc.len() ==> v[e] == #[trigger] acc[e]
            &&& v.len() >= acc.len()
            &&& v.contains((nodes[found[a].idx as int].vid, found[a].dist)) || (v.len() == want
                && forall|e: int|
                0 <= e < v.len() ==> total_rank((#[trigger] v[e]).1) <= total_rank(found[a].dist))
        }),
    decreases found.len() - i,
{
    let mine = (nodes[found[a].idx as int].vid, found[a].dist);
    if i < found.len() && acc.len() < want {
        if found[i].idx >= nodes.len() || nodes[found[i].idx as int].removed {
            lemma_shown_order(nodes, found, i + 1, acc, want, a);
        } else {
            let e = (nodes[found[i].idx as int].vid, found[i].dist);
            let next = acc.push(e);
            assert forall|x: int, b: int| 0 <= x < next.len() && i + 1 <= b < found.len() implies total_rank(
                (#[trigger] next[x]).1,
            ) <= total_rank((#[trigger] found[b]).dist) by {
                if x < acc.len() {
                    assert(acc[x] == next[x]);
                } else {
                    assert(!nearer(found[b], found[i]));
                }
            }
            assert(a < i + 1 ==> next.contains(mine)) by {
                if a < i {
                    let x = choose|x: int| 0 <= x < acc.len() && acc[x] == mine;
                    assert(next[x] == mine);
                } else if a == i {
                    assert(next[acc.len() as int] == mine);
                }
            }
            lemma_shown_order(nodes, found, i + 1, next, want, a);
            let v = shown_from(nodes, found, i + 1, next, want);
            assert forall|x: int| 0 <= x < acc.len() implies v[x] == #[trigger] acc[x] by {
                assert(v[x] == next[x]);
            }
        }
    } else if a < i {
        assert(acc.contains(mine));
    } else {
        assert forall|e: int| 0 <= e < acc.len() implies total_rank((#[trigger] acc[e]).1)
            <= total_rank(found[a].dist) by {
            assert(found[a] == found[a]);
        }
    }
}

/// Whether a version is among the hits.
pub open spec fn gives(v: Seq<(u64, u64)>, vid: u64) -> bool {
    exists|j: int| 0 <= j < v.len() && (#[trigger] v[j]).0 == vid
}

/// Whether no hit is farther than a distance. Distances that are not negative are
/// ordered as their bits are.
pub open spec fn none_beyond(v: Seq<(u64, u64)>, d: Option<u64>) -> bool {
    forall|i: int|
        0 <= i < v.len() ==> d is Some && total_rank((#[trigger] v[i]).1) <= total_rank(d->0) && (
        v[i].1 < SIGN_BIT && d->0 < SIGN_BIT ==> v[i].1 <= d->0)
}

/// A search that is as wide as the graph is exact: it gives the `want` nearest of all
/// vectors that were not taken out, or all where there are fewer. What it leaves out is
/// no nearer than anything that it gives.
pub proof fn law_wide_search_is_exact(g: GraphV, k: Map<u128, u64>, want: usize, ef: usize)
    requires
        graph_ok(g),
        g.nodes.len() < usize::MAX,
        g.entry is Some <==> g.nodes.len() > 0,
        connected_below(g.nodes),
        ef >= g.nodes.len(),
        g.by_vid.dom().finite(),
        searched(g, k, want, Some(ef)) is Ok,
    ensures
        ({
            let v = searched(g, k, want, Some(ef))->Ok_0;
            let q = g.nodes.len() as usize;
            &&& v.len() == (if want <= g.by_vid.len() {
                want as nat
            } else {
                g.by_vid.len()
            })
            &&& forall|vid: u64| #[trigger]
                g.by_vid.contains_key(vid) && !gives(v, vid) ==> none_beyond(
                    v,
                    known(k, q, g.by_vid[vid]),
                )
        }),
{
    let v = searched(g, k, want, Some(ef))->Ok_0;
    let q = g.nodes.len() as usize;
    let dom = g.by_vid.dom();
    if g.entry is Some && want > 0 {
        let wide = if ef < want {
            want
        } else {
            ef
        };
        let ep = descended(g.nodes, k, q, g.entry->0, g.max_level, 0)->Ok_0;
        lemma_descended_inside(g.nodes, k, q, g.entry->0, g.max_level, 0);
        let found = layer_found(g.nodes, k, q, ep, wide, 0)->Ok_0;
        lemma_layer_finds(g.nodes, k, q, ep, wide);
        law_layer_is_sorted(g.nodes, k, q, ep, wide, 0);
        let first = start(g.nodes, ep, known(k, q, ep)->0);
        assert(fairly_found(first, k, q));
        lemma_walked_fairly(g.nodes, k, q, wide, 0, first, g.nodes.len());
        law_search_is_fair(g, k, want, Some(ef));
        crate::graph::law_search_is_bounded(g, k, want, Some(ef));
        assert forall|vid: u64| #[trigger] g.by_vid.contains_key(vid) implies gives(v, vid) || (
        v.len() == want && none_beyond(v, known(k, q, g.by_vid[vid]))) by {
            let x = g.by_vid[vid] as int;
            assert(holds_node(found, x));
            let a = choose|a: int| 0 <= a < found.len() && (#[trigger] found[a]).idx == x;
            lemma_shown_order(g.nodes, found, 0, Seq::empty(), want as nat, a);
            assert(known(k, q, found[a].idx) == Some(found[a].dist));
            if v.contains((vid, found[a].dist)) {
                let j = choose|j: int| 0 <= j < v.len() && v[j] == (vid, found[a].dist);
                assert(v[j].0 == vid);
            }
        }
        let vids = Seq::new(v.len(), |j: int| v[j].0);
        assert(vids.no_duplicates()) by {
            assert forall|i: int, j: int| 0 <= i < vids.len() && 0 <= j < vids.len() && i
                != j implies vids[i] != vids[j] by {
                if i < j {
                    assert(v[i].0 != v[j].0);
                } else {
                    assert(v[j].0 != v[i].0);
                }
            }
        }
        vids.unique_seq_to_set();
        assert(vids.to_set().subset_of(dom)) by {
            assert forall|u: u64| vids.to_set().contains(u) implies dom.contains(u) by {
                let j = choose|j: int| 0 <= j < vids.len() && vids[j] == u;
                assert(g.by_vid.contains_key(v[j].0));
            }
        }
        vstd::set_lib::lemma_len_subset(vids.to_set(), dom);
        if v.len() < want {
            assert(dom.subset_of(vids.to_set())) by {
                assert forall|u: u64| dom.contains(u) implies vids.to_set().contains(u) by {
                    assert(g.by_vid.contains_key(u));
                    assert(gives(v, u));
                    let j = choose|j: int| 0 <= j < v.len() && (#[trigger] v[j]).0 == u;
                    assert(vids[j] == u);
                }
            }
            vstd::set_lib::lemma_len_subset(dom, vids.to_set());
        }
        assert(dom.len() == g.by_vid.len());
        assert(vids.to_set().len() == v.len());
        assert(v.len() == (if want <= g.by_vid.len() {
            want as nat
        } else {
            g.by_vid.len()
        }));
    } else if g.entry is None {
        assert forall|u: u64| !dom.contains(u) by {
            if dom.contains(u) {
                assert(g.by_vid.contains_key(u));
            }
        }
        assert(dom =~= Set::<u64>::empty());
        assert(g.by_vid.len() == 0);
        assert(v.len() == 0);
    } else {
        assert(v.len() == 0);
    }
}

} // verus!
