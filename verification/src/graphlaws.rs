//! What growth, marks and removals keep of a graph.
use vstd::prelude::*;
use crate::graph::{
    bare_node, best, chosen, connected, dead_nodes, descended, front, graph_ok, grown, indexes_of,
    known, law_layer_is_sorted, law_search_is_bounded, layer_found, lemma_marked_ok, linked_from,
    links, live_count, mapped, marked_dead, nearer, place, present, pruned, put, raised,
    ranked_from, room, searched, seen, seen_from, shown_from, sorted, start, taken_out, total_rank,
    walk, whole, woven_from, GraphV, LayerV, NodeV, Scored,
};
use crate::vector::IndexParams;

verus! {

/// Every one a node.
pub open spec fn inside(v: Seq<Scored>, n: nat) -> bool {
    forall|i: int| 0 <= i < v.len() ==> (#[trigger] v[i]).idx < n
}

proof fn lemma_put_inside(v: Seq<Scored>, s: Scored, n: nat)
    requires
        inside(v, n),
        s.idx < n,
    ensures
        inside(put(v, s), n),
{
    lemma_place_range(v, s, 0);
    let p = place(v, s, 0);
    let w = put(v, s);
    assert forall|i: int| 0 <= i < w.len() implies (#[trigger] w[i]).idx < n by {
        if i < p {
            assert(w[i] == v[i]);
        } else if i > p {
            assert(w[i] == v[i - 1]);
        }
    }
}

proof fn lemma_place_range(v: Seq<Scored>, s: Scored, i: int)
    requires
        0 <= i <= v.len(),
    ensures
        i <= place(v, s, i) <= v.len(),
    decreases v.len() - i,
{
    if i < v.len() && !crate::graph::nearer(s, v[i]) {
        lemma_place_range(v, s, i + 1);
    }
}

spec fn layer_inside(st: LayerV, n: nat) -> bool {
    inside(st.cand, n) && inside(st.found, n) && st.visited.len() == n
}

proof fn lemma_seen_inside(
    st: LayerV,
    k: Map<u128, u64>,
    q: usize,
    ef: usize,
    nbs: Seq<usize>,
    j: int,
    n: nat,
)
    requires
        layer_inside(st, n),
    ensures
        layer_inside(seen_from(st, k, q, ef, nbs, j), n),
    decreases nbs.len() - j,
{
    if 0 <= j < nbs.len() {
        let nb = nbs[j];
        if nb < n && !st.visited[nb as int] {
            match known(k, q, nb) {
                Some(dist) => {
                    let s = Scored { dist, idx: nb };
                    lemma_put_inside(st.cand, s, n);
                    lemma_put_inside(st.found, s, n);
                },
                None => {},
            }
        }
        assert(layer_inside(seen(st, k, q, ef, nb), n));
        lemma_seen_inside(seen(st, k, q, ef, nb), k, q, ef, nbs, j + 1, n);
    }
}

proof fn lemma_walk_inside(
    nodes: Seq<NodeV>,
    k: Map<u128, u64>,
    q: usize,
    ef: usize,
    level: usize,
    st: LayerV,
    steps: nat,
)
    requires
        layer_inside(st, nodes.len()),
    ensures
        walk(nodes, k, q, ef, level, st, steps) matches Ok(v) ==> inside(v, nodes.len()),
    decreases steps,
{
    if steps > 0 && st.cand.len() > 0 {
        let nbs = links(nodes, st.cand[0].idx, level);
        let t = LayerV { cand: st.cand.drop_first(), ..st };
        lemma_seen_inside(t, k, q, ef, nbs, 0, nodes.len());
        lemma_walk_inside(
            nodes,
            k,
            q,
            ef,
            level,
            seen_from(t, k, q, ef, nbs, 0),
            (steps - 1) as nat,
        );
    }
}

pub proof fn lemma_layer_inside(
    nodes: Seq<NodeV>,
    k: Map<u128, u64>,
    q: usize,
    entry: usize,
    ef: usize,
    level: usize,
)
    requires
        entry < nodes.len(),
    ensures
        layer_found(nodes, k, q, entry, ef, level) matches Ok(v) ==> inside(v, nodes.len()),
{
    match known(k, q, entry) {
        None => {},
        Some(dist) => {
            lemma_walk_inside(nodes, k, q, ef, level, start(nodes, entry, dist), nodes.len());
        },
    }
}

pub proof fn lemma_descended_inside(
    nodes: Seq<NodeV>,
    k: Map<u128, u64>,
    q: usize,
    ep: usize,
    l: usize,
    stop: usize,
)
    requires
        ep < nodes.len(),
    ensures
        descended(nodes, k, q, ep, l, stop) matches Ok(e) ==> e < nodes.len(),
    decreases l,
{
    if l > stop {
        lemma_layer_inside(nodes, k, q, ep, 1, l);
        match layer_found(nodes, k, q, ep, 1, l) {
            Err(_) => {},
            Ok(found) => {
                lemma_descended_inside(nodes, k, q, best(found, ep), (l - 1) as usize, stop);
            },
        }
    }
}

spec fn rows_inside(rows: Seq<Seq<Scored>>, n: nat) -> bool {
    forall|r: int| 0 <= r < rows.len() ==> inside(#[trigger] rows[r], n)
}

proof fn lemma_chosen_inside(
    nodes: Seq<NodeV>,
    k: Map<u128, u64>,
    p: IndexParams,
    q: usize,
    ep: usize,
    n: nat,
    acc: Seq<Seq<Scored>>,
)
    requires
        ep < nodes.len(),
        rows_inside(acc, nodes.len()),
    ensures
        chosen(nodes, k, p, q, ep, n, acc) matches Ok(rows) ==> rows_inside(rows, nodes.len()),
    decreases n,
{
    if n > 0 {
        let level = (n - 1) as usize;
        lemma_layer_inside(nodes, k, q, ep, p.ef_construction, level);
        match layer_found(nodes, k, q, ep, p.ef_construction, level) {
            Err(_) => {},
            Ok(found) => {
                let row = front(found, room(p, level));
                assert(inside(row, nodes.len()));
                assert(rows_inside(acc.push(row), nodes.len()));
                lemma_chosen_inside(
                    nodes,
                    k,
                    p,
                    q,
                    best(found, ep),
                    level as nat,
                    acc.push(row),
                );
            },
        }
    }
}

/// Neighbours that are nodes.
spec fn within(v: Seq<Seq<usize>>, n: nat) -> bool {
    forall|l: int, j: int|
        #![trigger v[l][j]]
        0 <= l < v.len() && 0 <= j < v[l].len() ==> v[l][j] < n
}

spec fn all_within(nodes: Seq<NodeV>, n: nat) -> bool {
    forall|i: int| 0 <= i < nodes.len() ==> within((#[trigger] nodes[i]).neighbors, n)
}

proof fn lemma_raised_within(v: Seq<Seq<usize>>, level: usize, n: nat)
    requires
        within(v, n),
    ensures
        within(raised(v, level), n),
        raised(v, level).len() > level,
    decreases level + 1 - v.len(),
{
    if v.len() <= level {
        lemma_raised_within(v.push(Seq::empty()), level, n);
    }
}

proof fn lemma_connected_within(nodes: Seq<NodeV>, a: usize, b: usize, level: usize, n: nat)
    requires
        all_within(nodes, n),
        b < n,
    ensures
        all_within(connected(nodes, a, b, level), n),
        connected(nodes, a, b, level).len() == nodes.len(),
{
    if a != b && a < nodes.len() {
        assert(within(nodes[a as int].neighbors, n));
        lemma_raised_within(nodes[a as int].neighbors, level, n);
        let v = raised(nodes[a as int].neighbors, level);
        if !v[level as int].contains(b) {
            let w = v.update(level as int, v[level as int].push(b));
            assert forall|l: int, j: int|
                #![trigger w[l][j]]
                0 <= l < w.len() && 0 <= j < w[l].len() implies w[l][j] < n by {
                if l == level {
                    if j < v[l].len() {
                        assert(v[l][j] < n);
                    }
                } else {
                    assert(v[l][j] < n);
                }
            }
        }
        let out = connected(nodes, a, b, level);
        assert forall|i: int| 0 <= i < out.len() implies within(
            (#[trigger] out[i]).neighbors,
            n,
        ) by {
            if i != a {
                assert(within(nodes[i].neighbors, n));
            }
        }
    }
}

proof fn lemma_ranked_inside(
    k: Map<u128, u64>,
    a: usize,
    nbs: Seq<usize>,
    j: int,
    acc: Seq<Scored>,
    n: nat,
)
    requires
        inside(acc, n),
        0 <= j,
        forall|i: int| 0 <= i < nbs.len() ==> (#[trigger] nbs[i]) < n,
    ensures
        inside(ranked_from(k, a, nbs, j, acc), n),
    decreases nbs.len() - j,
{
    if j < nbs.len() {
        assert(nbs[j] < n);
        match known(k, a, nbs[j]) {
            Some(dist) => {
                lemma_put_inside(acc, Scored { dist, idx: nbs[j] }, n);
                lemma_ranked_inside(
                    k,
                    a,
                    nbs,
                    j + 1,
                    put(acc, Scored { dist, idx: nbs[j] }),
                    n,
                );
            },
            None => {
                lemma_ranked_inside(k, a, nbs, j + 1, acc, n);
            },
        }
    }
}

proof fn lemma_pruned_within(nodes: Seq<NodeV>, k: Map<u128, u64>, a: usize, level: usize, m: usize, n: nat)
    requires
        all_within(nodes, n),
    ensures
        all_within(pruned(nodes, k, a, level, m), n),
        pruned(nodes, k, a, level, m).len() == nodes.len(),
{
    let nbs = links(nodes, a, level);
    if nbs.len() > m {
        let v = nodes[a as int].neighbors;
        assert(within(v, n));
        assert forall|i: int| 0 <= i < nbs.len() implies (#[trigger] nbs[i]) < n by {
            assert(v[level as int][i] < n);
        }
        lemma_ranked_inside(k, a, nbs, 0, Seq::empty(), n);
        let kept = front(ranked_from(k, a, nbs, 0, Seq::empty()), m);
        let w = v.update(level as int, indexes_of(kept));
        assert forall|l: int, j: int|
            #![trigger w[l][j]]
            0 <= l < w.len() && 0 <= j < w[l].len() implies w[l][j] < n by {
            if l == level {
                assert(kept[j].idx < n);
            } else {
                assert(v[l][j] < n);
            }
        }
        let out = pruned(nodes, k, a, level, m);
        assert forall|i: int| 0 <= i < out.len() implies within(
            (#[trigger] out[i]).neighbors,
            n,
        ) by {
            if i != a {
                assert(within(nodes[i].neighbors, n));
            }
        }
    }
}

proof fn lemma_linked_within(
    nodes: Seq<NodeV>,
    k: Map<u128, u64>,
    q: usize,
    level: usize,
    m: usize,
    row: Seq<Scored>,
    j: int,
    n: nat,
)
    requires
        all_within(nodes, n),
        inside(row, n),
        q < n,
    ensures
        all_within(linked_from(nodes, k, q, level, m, row, j), n),
        linked_from(nodes, k, q, level, m, row, j).len() == nodes.len(),
    decreases row.len() - j,
{
    if 0 <= j < row.len() {
        let s = row[j].idx;
        assert(s < n);
        lemma_connected_within(nodes, q, s, level, n);
        let a = connected(nodes, q, s, level);
        lemma_connected_within(a, s, q, level, n);
        let b = connected(a, s, q, level);
        lemma_pruned_within(b, k, s, level, m, n);
        lemma_linked_within(pruned(b, k, s, level, m), k, q, level, m, row, j + 1, n);
    }
}

proof fn lemma_woven_within(
    nodes: Seq<NodeV>,
    k: Map<u128, u64>,
    p: IndexParams,
    q: usize,
    top: usize,
    rows: Seq<Seq<Scored>>,
    r: int,
    n: nat,
)
    requires
        all_within(nodes, n),
        rows_inside(rows, n),
        q < n,
    ensures
        all_within(woven_from(nodes, k, p, q, top, rows, r), n),
        woven_from(nodes, k, p, q, top, rows, r).len() == nodes.len(),
    decreases rows.len() - r,
{
    if 0 <= r < rows.len() && r <= top {
        let level = (top - r) as usize;
        assert(inside(rows[r], n));
        lemma_linked_within(nodes, k, q, level, room(p, level), rows[r], 0, n);
        lemma_woven_within(
            linked_from(nodes, k, q, level, room(p, level), rows[r], 0),
            k,
            p,
            q,
            top,
            rows,
            r + 1,
            n,
        );
    }
}

/// Growth keeps a graph whole: no search of it ever runs off its nodes.
pub proof fn law_growth_keeps_whole(
    g: GraphV,
    vid: u64,
    vector: Seq<u32>,
    level: usize,
    k: Map<u128, u64>,
)
    requires
        whole(g),
        g.nodes.len() < usize::MAX,
        grown(g, vid, vector, level, k) is Ok,
    ensures
        whole(grown(g, vid, vector, level, k)->Ok_0),
{
    let out = grown(g, vid, vector, level, k)->Ok_0;
    if !g.by_vid.contains_key(vid) {
        let q = g.nodes.len() as usize;
        let p = g.def.params;
        let n = g.nodes.len() + 1;
        let base = g.nodes.push(bare_node(vid, vector, level));
        assert forall|i: int| 0 <= i < base.len() implies within(
            (#[trigger] base[i]).neighbors,
            n,
        ) by {
            assert forall|l: int, j: int|
                #![trigger base[i].neighbors[l][j]]
                0 <= l < base[i].neighbors.len() && 0 <= j
                    < base[i].neighbors[l].len() implies base[i].neighbors[l][j] < n by {
                if i < g.nodes.len() {
                    assert(g.nodes[i].neighbors[l][j] < g.nodes.len());
                }
            }
        }
        match g.entry {
            None => {},
            Some(entry) => {
                let top = if level < g.max_level {
                    level
                } else {
                    g.max_level
                };
                lemma_descended_inside(g.nodes, k, q, entry, g.max_level, level);
                let ep = descended(g.nodes, k, q, entry, g.max_level, level)->Ok_0;
                lemma_chosen_inside(g.nodes, k, p, q, ep, (top + 1) as nat, Seq::empty());
                let rows = chosen(g.nodes, k, p, q, ep, (top + 1) as nat, Seq::empty())->Ok_0;
                assert(rows_inside(rows, n)) by {
                    assert forall|r: int| 0 <= r < rows.len() implies inside(
                        #[trigger] rows[r],
                        n,
                    ) by {
                        assert(inside(rows[r], g.nodes.len()));
                    }
                }
                lemma_woven_within(base, k, p, q, top, rows, 0, n);
            },
        }
        assert(all_within(out.nodes, n));
        assert(out.nodes.len() == n);
        assert forall|i: int, l: int, j: int|
            #![trigger out.nodes[i].neighbors[l][j]]
            0 <= i < out.nodes.len() && 0 <= l < out.nodes[i].neighbors.len() && 0 <= j
                < out.nodes[i].neighbors[l].len() implies out.nodes[i].neighbors[l][j]
            < out.nodes.len() by {
            assert(within(out.nodes[i].neighbors, n));
        }
    }
}

// ---- marks ----------------------------------------------------------------------------------------

/// Two graphs with the same links, the same versions and the same nodes gone.
spec fn same_but_marks(a: Seq<NodeV>, b: Seq<NodeV>) -> bool {
    &&& a.len() == b.len()
    &&& forall|i: int|
        0 <= i < a.len() ==> (#[trigger] b[i]).neighbors == a[i].neighbors && b[i].vid == a[i].vid
            && b[i].removed == a[i].removed
}

proof fn lemma_same_walk(
    a: Seq<NodeV>,
    b: Seq<NodeV>,
    k: Map<u128, u64>,
    q: usize,
    ef: usize,
    level: usize,
    st: LayerV,
    steps: nat,
)
    requires
        same_but_marks(a, b),
    ensures
        walk(a, k, q, ef, level, st, steps) == walk(b, k, q, ef, level, st, steps),
    decreases steps,
{
    if steps > 0 && st.cand.len() > 0 {
        let c = st.cand[0];
        let nbs = links(a, c.idx, level);
        assert(links(b, c.idx, level) == nbs) by {
            if c.idx < a.len() {
                assert(b[c.idx as int].neighbors == a[c.idx as int].neighbors);
            }
        }
        lemma_same_walk(
            a,
            b,
            k,
            q,
            ef,
            level,
            seen_from(LayerV { cand: st.cand.drop_first(), ..st }, k, q, ef, nbs, 0),
            (steps - 1) as nat,
        );
    }
}

proof fn lemma_same_layer(
    a: Seq<NodeV>,
    b: Seq<NodeV>,
    k: Map<u128, u64>,
    q: usize,
    entry: usize,
    ef: usize,
    level: usize,
)
    requires
        same_but_marks(a, b),
    ensures
        layer_found(a, k, q, entry, ef, level) == layer_found(b, k, q, entry, ef, level),
{
    match known(k, q, entry) {
        None => {},
        Some(dist) => {
            lemma_same_walk(a, b, k, q, ef, level, start(a, entry, dist), a.len());
        },
    }
}

proof fn lemma_same_descent(
    a: Seq<NodeV>,
    b: Seq<NodeV>,
    k: Map<u128, u64>,
    q: usize,
    ep: usize,
    l: usize,
    stop: usize,
)
    requires
        same_but_marks(a, b),
    ensures
        descended(a, k, q, ep, l, stop) == descended(b, k, q, ep, l, stop),
    decreases l,
{
    if l > stop {
        lemma_same_layer(a, b, k, q, ep, 1, l);
        match layer_found(a, k, q, ep, 1, l) {
            Err(_) => {},
            Ok(found) => {
                lemma_same_descent(a, b, k, q, best(found, ep), (l - 1) as usize, stop);
            },
        }
    }
}

proof fn lemma_same_shown(
    a: Seq<NodeV>,
    b: Seq<NodeV>,
    found: Seq<Scored>,
    i: int,
    acc: Seq<(u64, u64)>,
    want: nat,
)
    requires
        same_but_marks(a, b),
        0 <= i,
    ensures
        shown_from(a, found, i, acc, want) == shown_from(b, found, i, acc, want),
    decreases found.len() - i,
{
    if i < found.len() && acc.len() < want {
        let at = found[i].idx as int;
        if at < a.len() {
            assert(b[at].vid == a[at].vid && b[at].removed == a[at].removed);
        }
        if at >= a.len() || a[at].removed {
            lemma_same_shown(a, b, found, i + 1, acc, want);
        } else {
            lemma_same_shown(a, b, found, i + 1, acc.push((a[at].vid, found[i].dist)), want);
        }
    }
}

/// Noting that a version was deleted changes no search: readers of older snapshots
/// still find it. Noting it again changes nothing at all.
pub proof fn law_marking_changes_no_search(
    g: GraphV,
    vid: u64,
    k: Map<u128, u64>,
    want: usize,
    ef: Option<usize>,
)
    requires
        graph_ok(g),
    ensures
        searched(marked_dead(g, vid), k, want, ef) == searched(g, k, want, ef),
        marked_dead(marked_dead(g, vid), vid) == marked_dead(g, vid),
{
    let m = marked_dead(g, vid);
    assert(same_but_marks(g.nodes, m.nodes));
    if !(g.entry is None || want == 0) {
        let q = g.nodes.len() as usize;
        let given = match ef {
            Some(n) => n,
            None => g.def.params.ef_search,
        };
        let wide = if given < want {
            want
        } else {
            given
        };
        lemma_same_descent(g.nodes, m.nodes, k, q, g.entry->0, g.max_level, 0);
        match descended(g.nodes, k, q, g.entry->0, g.max_level, 0) {
            Err(_) => {},
            Ok(ep) => {
                lemma_same_layer(g.nodes, m.nodes, k, q, ep, wide, 0);
                match layer_found(g.nodes, k, q, ep, wide, 0) {
                    Err(_) => {},
                    Ok(found) => {
                        lemma_same_shown(
                            g.nodes,
                            m.nodes,
                            found,
                            0,
                            Seq::empty(),
                            want as nat,
                        );
                    },
                }
            },
        }
    }
}

/// A version that was taken out is never found again.
pub proof fn law_taken_out_is_not_found(
    g: GraphV,
    vid: u64,
    k: Map<u128, u64>,
    want: usize,
    ef: Option<usize>,
)
    requires
        graph_ok(g),
        searched(taken_out(g, vid), k, want, ef) is Ok,
    ensures
        forall|i: int|
            0 <= i < searched(taken_out(g, vid), k, want, ef)->Ok_0.len() ==> (
            #[trigger] searched(taken_out(g, vid), k, want, ef)->Ok_0[i]).0 != vid,
{
    let m = taken_out(g, vid);
    let v = searched(m, k, want, ef)->Ok_0;
    law_search_is_bounded(m, k, want, ef);
    assert forall|i: int| 0 <= i < v.len() implies (#[trigger] v[i]).0 != vid by {
        if v[i].0 == vid {
            assert(present(m.nodes, vid));
            let j = choose|j: int|
                0 <= j < m.nodes.len() && (#[trigger] m.nodes[j]).vid == vid
                    && !m.nodes[j].removed;
            assert(g.nodes[j].vid == vid && !g.nodes[j].removed);
            assert(g.by_vid.contains_key(g.nodes[j].vid) && g.by_vid[g.nodes[j].vid] == j);
        }
    }
}

// ---- counts ---------------------------------------------------------------------------------------

/// The versions whose nodes are among the first `n`.
spec fn versions_below(by_vid: Map<u64, usize>, n: int) -> Set<u64> {
    by_vid.dom().filter(|v: u64| by_vid[v] < n)
}

proof fn lemma_versions_below(nodes: Seq<NodeV>, by_vid: Map<u64, usize>, n: int)
    requires
        mapped(nodes, by_vid),
        0 <= n <= nodes.len(),
    ensures
        versions_below(by_vid, n).finite(),
        dead_nodes(nodes, n) <= versions_below(by_vid, n).len(),
    decreases n,
{
    let now = versions_below(by_vid, n);
    if n == 0 {
        assert(now =~= Set::<u64>::empty());
    } else {
        let before = versions_below(by_vid, n - 1);
        lemma_versions_below(nodes, by_vid, n - 1);
        let last = nodes[n - 1];
        if last.removed {
            assert forall|v: u64| #[trigger] now.contains(v) implies before.contains(v) by {
                assert(by_vid.contains_key(v));
            }
            assert(now =~= before);
        } else {
            assert(by_vid.contains_key(last.vid) && by_vid[last.vid] == n - 1);
            assert forall|v: u64| #[trigger] now.contains(v) implies before.insert(
                last.vid,
            ).contains(v) by {
                assert(by_vid.contains_key(v));
            }
            assert(now =~= before.insert(last.vid));
        }
    }
}

/// No more vectors are counted as deleted than there are.
proof fn lemma_dead_are_there(g: GraphV)
    requires
        graph_ok(g),
    ensures
        g.dead_count <= g.by_vid.len(),
{
    let n = g.nodes.len() as int;
    lemma_versions_below(g.nodes, g.by_vid, n);
    assert forall|v: u64| #[trigger] g.by_vid.dom().contains(v) implies versions_below(
        g.by_vid,
        n,
    ).contains(v) by {
        assert(g.by_vid.contains_key(v));
    }
    assert(versions_below(g.by_vid, n) =~= g.by_vid.dom());
}

/// Marking a version as deleted leaves the count of vectors. The count of live ones
/// drops by one where the version is there and not yet marked, and stays otherwise. A
/// second mark changes nothing.
pub proof fn law_marking_counts(g: GraphV, vid: u64)
    requires
        graph_ok(g),
        g.nodes.len() <= usize::MAX,
    ensures
        ({
            let m = marked_dead(g, vid);
            &&& graph_ok(m)
            &&& m.nodes.len() == g.nodes.len()
            &&& m.by_vid.len() == g.by_vid.len()
            &&& live_count(g) == g.by_vid.len() - g.dead_count
            &&& live_count(m) == live_count(g) - (if g.by_vid.contains_key(vid)
                && !g.nodes[g.by_vid[vid] as int].dead {
                1int
            } else {
                0
            })
            &&& marked_dead(m, vid) == m
        }),
{
    let m = marked_dead(g, vid);
    lemma_dead_are_there(g);
    if g.by_vid.contains_key(vid) && !g.nodes[g.by_vid[vid] as int].dead {
        lemma_marked_ok(g, vid);
        lemma_dead_are_there(m);
    }
}

// ---- what a search gives --------------------------------------------------------------------------

/// Every one found has been seen and has its own distance, and none is found twice.
pub open spec fn fairly_found(st: LayerV, k: Map<u128, u64>, q: usize) -> bool {
    own_distances(st.found, k, q) && forall|i: int|
        0 <= i < st.found.len() && (#[trigger] st.found[i]).idx < st.visited.len()
            ==> st.visited[st.found[i].idx as int]
}

pub open spec fn own_distances(found: Seq<Scored>, k: Map<u128, u64>, q: usize) -> bool {
    &&& forall|i: int|
        0 <= i < found.len() ==> known(k, q, (#[trigger] found[i]).idx) == Some(found[i].dist)
    &&& forall|i: int, j: int|
        0 <= i < j < found.len() ==> (#[trigger] found[i]).idx != (#[trigger] found[j]).idx
}

proof fn lemma_seen_fairly(st: LayerV, k: Map<u128, u64>, q: usize, ef: usize, nb: usize)
    requires
        fairly_found(st, k, q),
    ensures
        fairly_found(seen(st, k, q, ef, nb), k, q),
{
    if nb < st.visited.len() && !st.visited[nb as int] {
        if let Some(dist) = known(k, q, nb) {
            let s = Scored { dist, idx: nb };
            let w = put(st.found, s);
            let p = place(st.found, s, 0);
            lemma_place_range(st.found, s, 0);
            let from = |i: int|
                if i < p {
                    i
                } else {
                    i - 1
                };
            assert forall|i: int| 0 <= i < w.len() && i != p implies #[trigger] w[i]
                == st.found[from(i)] && w[i].idx != nb by {
                assert(st.found[from(i)].idx < st.visited.len() ==> st.visited[st.found[from(
                    i,
                )].idx as int]);
            }
            assert(w[p] == s);
            assert(own_distances(w, k, q)) by {
                assert forall|i: int, j: int| 0 <= i < j < w.len() implies (#[trigger] w[i]).idx
                    != (#[trigger] w[j]).idx by {
                    if i != p && j != p {
                        assert(st.found[from(i)].idx != st.found[from(j)].idx);
                    }
                }
                assert forall|i: int| 0 <= i < w.len() implies known(
                    k,
                    q,
                    (#[trigger] w[i]).idx,
                ) == Some(w[i].dist) by {
                    if i != p {
                        assert(known(k, q, st.found[from(i)].idx) == Some(st.found[from(i)].dist));
                    }
                }
            }
            let visited = st.visited.update(nb as int, true);
            assert forall|i: int| 0 <= i < w.len() && (#[trigger] w[i]).idx
                < visited.len() implies visited[w[i].idx as int] by {
                if i != p {
                    assert(st.found[from(i)].idx < st.visited.len());
                }
            }
        }
    }
}

proof fn lemma_all_seen_fairly(
    st: LayerV,
    k: Map<u128, u64>,
    q: usize,
    ef: usize,
    nbs: Seq<usize>,
    j: int,
)
    requires
        fairly_found(st, k, q),
    ensures
        fairly_found(seen_from(st, k, q, ef, nbs, j), k, q),
    decreases nbs.len() - j,
{
    if 0 <= j < nbs.len() {
        lemma_seen_fairly(st, k, q, ef, nbs[j]);
        lemma_all_seen_fairly(seen(st, k, q, ef, nbs[j]), k, q, ef, nbs, j + 1);
    }
}

pub proof fn lemma_walked_fairly(
    nodes: Seq<NodeV>,
    k: Map<u128, u64>,
    q: usize,
    ef: usize,
    level: usize,
    st: LayerV,
    steps: nat,
)
    requires
        fairly_found(st, k, q),
    ensures
        walk(nodes, k, q, ef, level, st, steps) matches Ok(v) ==> own_distances(v, k, q),
    decreases steps,
{
    if steps > 0 && st.cand.len() > 0 {
        let nbs = links(nodes, st.cand[0].idx, level);
        let t = LayerV { cand: st.cand.drop_first(), ..st };
        assert(fairly_found(t, k, q));
        lemma_all_seen_fairly(t, k, q, ef, nbs, 0);
        lemma_walked_fairly(
            nodes,
            k,
            q,
            ef,
            level,
            seen_from(t, k, q, ef, nbs, 0),
            (steps - 1) as nat,
        );
    }
}

/// Each version comes with the distance of its own node, none comes twice, and the
/// nearer ones come first.
pub open spec fn well_shown(g: GraphV, k: Map<u128, u64>, q: usize, v: Seq<(u64, u64)>) -> bool {
    &&& forall|i: int|
        0 <= i < v.len() ==> g.by_vid.contains_key((#[trigger] v[i]).0) && known(
            k,
            q,
            g.by_vid[v[i].0],
        ) == Some(v[i].1)
    &&& forall|i: int, j: int|
        0 <= i < j < v.len() ==> (#[trigger] v[i]).0 != (#[trigger] v[j]).0 && total_rank(v[i].1)
            <= total_rank(v[j].1)
}

/// What is shown so far comes from what was found before `i`.
spec fn shown_before(g: GraphV, found: Seq<Scored>, i: int, acc: Seq<(u64, u64)>) -> bool {
    forall|a: int|
        0 <= a < acc.len() ==> exists|x: int|
            0 <= x < i && x < found.len() && (#[trigger] found[x]).dist == (#[trigger] acc[a]).1
                && g.by_vid[acc[a].0] == found[x].idx
}

proof fn lemma_well_shown(
    g: GraphV,
    k: Map<u128, u64>,
    q: usize,
    found: Seq<Scored>,
    i: int,
    acc: Seq<(u64, u64)>,
    want: nat,
)
    requires
        graph_ok(g),
        own_distances(found, k, q),
        sorted(found),
        0 <= i,
        well_shown(g, k, q, acc),
        shown_before(g, found, i, acc),
    ensures
        well_shown(g, k, q, shown_from(g.nodes, found, i, acc, want)),
    decreases found.len() - i,
{
    if i < found.len() && acc.len() < want {
        if found[i].idx >= g.nodes.len() || g.nodes[found[i].idx as int].removed {
            assert(shown_before(g, found, i + 1, acc)) by {
                assert forall|a: int| 0 <= a < acc.len() implies exists|x: int|
                    0 <= x < i + 1 && x < found.len() && (#[trigger] found[x]).dist == (
                    #[trigger] acc[a]).1 && g.by_vid[acc[a].0] == found[x].idx by {
                    let x = choose|x: int|
                        0 <= x < i && x < found.len() && (#[trigger] found[x]).dist == acc[a].1
                            && g.by_vid[acc[a].0] == found[x].idx;
                    assert(found[x].dist == acc[a].1);
                }
            }
            lemma_well_shown(g, k, q, found, i + 1, acc, want);
        } else {
            let node = g.nodes[found[i].idx as int];
            let next = acc.push((node.vid, found[i].dist));
            assert(g.by_vid.contains_key(node.vid) && g.by_vid[node.vid] == found[i].idx);
            assert forall|a: int| 0 <= a < acc.len() implies (#[trigger] acc[a]).0 != node.vid
                && total_rank(acc[a].1) <= total_rank(found[i].dist) by {
                let x = choose|x: int|
                    0 <= x < i && x < found.len() && (#[trigger] found[x]).dist == acc[a].1
                        && g.by_vid[acc[a].0] == found[x].idx;
                assert(found[x].idx != found[i].idx);
                assert(!nearer(found[i], found[x]));
            }
            assert(well_shown(g, k, q, next)) by {
                assert forall|a: int, b: int| 0 <= a < b < next.len() implies (
                #[trigger] next[a]).0 != (#[trigger] next[b]).0 && total_rank(next[a].1)
                    <= total_rank(next[b].1) by {
                    if b < acc.len() {
                        assert(acc[a].0 != acc[b].0);
                    } else {
                        assert(acc[a].0 != node.vid);
                    }
                }
                assert forall|a: int| 0 <= a < next.len() implies g.by_vid.contains_key(
                    (#[trigger] next[a]).0,
                ) && known(k, q, g.by_vid[next[a].0]) == Some(next[a].1) by {
                    if a < acc.len() {
                        assert(g.by_vid.contains_key(acc[a].0));
                    } else {
                        assert(known(k, q, found[i].idx) == Some(found[i].dist));
                    }
                }
            }
            assert(shown_before(g, found, i + 1, next)) by {
                assert forall|a: int| 0 <= a < next.len() implies exists|x: int|
                    0 <= x < i + 1 && x < found.len() && (#[trigger] found[x]).dist == (
                    #[trigger] next[a]).1 && g.by_vid[next[a].0] == found[x].idx by {
                    if a < acc.len() {
                        let x = choose|x: int|
                            0 <= x < i && x < found.len() && (#[trigger] found[x]).dist
                                == acc[a].1 && g.by_vid[acc[a].0] == found[x].idx;
                        assert(found[x].dist == next[a].1);
                    } else {
                        assert(found[i].dist == next[a].1);
                    }
                }
            }
            lemma_well_shown(g, k, q, found, i + 1, next, want);
        }
    }
}

/// A search gives no version twice. Each comes with the distance between its own
/// vector and the one that is searched for, the nearer ones first.
pub proof fn law_search_is_fair(g: GraphV, k: Map<u128, u64>, want: usize, ef: Option<usize>)
    requires
        graph_ok(g),
        searched(g, k, want, ef) is Ok,
    ensures
        well_shown(g, k, g.nodes.len() as usize, searched(g, k, want, ef)->Ok_0),
{
    if !(g.entry is None || want == 0) {
        let q = g.nodes.len() as usize;
        let given = match ef {
            Some(n) => n,
            None => g.def.params.ef_search,
        };
        let wide = if given < want {
            want
        } else {
            given
        };
        let ep = descended(g.nodes, k, q, g.entry->0, g.max_level, 0)->Ok_0;
        let found = layer_found(g.nodes, k, q, ep, wide, 0)->Ok_0;
        let first = start(g.nodes, ep, known(k, q, ep)->0);
        assert(fairly_found(first, k, q));
        lemma_walked_fairly(g.nodes, k, q, wide, 0, first, g.nodes.len());
        law_layer_is_sorted(g.nodes, k, q, ep, wide, 0);
        lemma_well_shown(g, k, q, found, 0, Seq::empty(), want as nat);
    }
}

} // verus!
