//! The layered proximity graph behind a vector index.
//!
//! A graph finds its way by distances, and a host with a floating-point unit
//! computes those. A search or an insertion runs on the distances known so far; where
//! one is missing it changes nothing and says which ones it wants. The nodes are
//! numbered as they came; a vector that is searched for has the number behind the
//! last one.
use std::collections::HashMap;
use vstd::prelude::*;
use vstd::std_specs::hash::*;
use crate::graphlaws::law_growth_keeps_whole;
use crate::ieee::{compare_reals, mag_bits, real_mag, real_neg, real_order, Order, SIGN_BIT};
use crate::vector::{IndexDef, IndexDefV, IndexParams, Metric};

verus! {

broadcast use group_hash_axioms;

/// From this many vectors on, a graph is worth compacting.
pub const MAINT_MIN_NODES: usize = 64;

/// The share of deleted vectors, in percent, from which a graph is compacted.
pub const MAINT_DEAD_RATIO_PCT: usize = 20;

/// The highest layer a vector can be given.
pub const MAX_LEVEL: usize = 16;

/// Where the draws of layers start.
pub const DRAW_SEED: u64 = 0x243F_6A88_85A3_08D3;

// ---- distances ------------------------------------------------------------------------------------

/// The distances known so far, as doubles.
pub struct Known {
    map: HashMap<u128, u64>,
}

impl View for Known {
    type V = Map<u128, u64>;

    closed spec fn view(&self) -> Map<u128, u64> {
        self.map@
    }
}

/// The key of the distance between two nodes.
pub open spec fn pair(a: usize, b: usize) -> u128 {
    (a * 0x1_0000_0000_0000_0000 + b) as u128
}

fn pair_key(a: usize, b: usize) -> (r: u128)
    ensures
        r == pair(a, b),
{
    (a as u128) * 0x1_0000_0000_0000_0000u128 + (b as u128)
}

pub open spec fn known(k: Map<u128, u64>, a: usize, b: usize) -> Option<u64> {
    if k.contains_key(pair(a, b)) {
        Some(k[pair(a, b)])
    } else {
        None
    }
}

/// Two pairs of nodes do not share a key.
pub proof fn law_pairs_are_told_apart(a: usize, b: usize, c: usize, d: usize)
    requires
        pair(a, b) == pair(c, d),
    ensures
        a == c && b == d,
{
}

impl Known {
    pub fn new() -> (r: Known)
        ensures
            r@ == Map::<u128, u64>::empty(),
    {
        Known { map: HashMap::new() }
    }

    /// File the distance from one node to another.
    pub fn learn(&mut self, a: usize, b: usize, dist: u64)
        ensures
            final(self)@ == old(self)@.insert(pair(a, b), dist),
    {
        let _old = self.map.insert(pair_key(a, b), dist);
    }

    pub fn get(&self, a: usize, b: usize) -> (r: Option<u64>)
        ensures
            r == known(self@, a, b),
    {
        match self.map.get(&pair_key(a, b)) {
            Some(d) => Some(*d),
            None => None,
        }
    }
}

/// The place of a double in the total order: negative ones before positive ones, and
/// NaNs at the ends.
pub open spec fn total_rank(b: u64) -> int {
    if real_neg(b) {
        -(real_mag(b) as int) - 1
    } else {
        real_mag(b) as int
    }
}

/// A node and its distance.
#[derive(Clone, Copy, Debug, PartialEq, Eq, Structural)]
pub struct Scored {
    pub dist: u64,
    pub idx: usize,
}

/// Nearer; of two at one distance, the one that came first.
pub open spec fn nearer(a: Scored, b: Scored) -> bool {
    total_rank(a.dist) < total_rank(b.dist) || (total_rank(a.dist) == total_rank(b.dist) && a.idx
        < b.idx)
}

fn rank_of(b: u64) -> (r: i64)
    ensures
        r == total_rank(b),
{
    let m: u64 = mag_bits(b);
    if b >= SIGN_BIT {
        -1 - (m as i64)
    } else {
        m as i64
    }
}

fn is_nearer(a: &Scored, b: &Scored) -> (r: bool)
    ensures
        r == nearer(*a, *b),
{
    let x: i64 = rank_of(a.dist);
    let y: i64 = rank_of(b.dist);
    x < y || (x == y && a.idx < b.idx)
}

/// Where a node goes among those from `i` on that are sorted.
pub open spec fn place(v: Seq<Scored>, s: Scored, i: int) -> int
    decreases v.len() - i,
{
    if i < 0 || i >= v.len() || nearer(s, v[i]) {
        i
    } else {
        place(v, s, i + 1)
    }
}

pub open spec fn put(v: Seq<Scored>, s: Scored) -> Seq<Scored> {
    v.insert(place(v, s, 0), s)
}

fn put_in(v: &mut Vec<Scored>, s: Scored)
    ensures
        final(v)@ == put(old(v)@, s),
{
    let ghost v0 = v@;
    let mut i: usize = 0;
    while i < v.len() && !is_nearer(&s, &v[i])
        invariant
            i <= v@.len(),
            v@ == v0,
            place(v0, s, i as int) == place(v0, s, 0),
        decreases v@.len() - i,
    {
        i += 1;
    }
    assert(place(v0, s, i as int) == i);
    v.insert(i, s);
}

// ---- nodes ----------------------------------------------------------------------------------------

/// A vector in the graph.
pub struct Node {
    pub vid: u64,
    pub vector: Vec<u32>,
    /// Its neighbours, layer by layer.
    pub neighbors: Vec<Vec<usize>>,
    /// The row was rolled back: the node leads on, but is not found.
    pub removed: bool,
    /// The row is deleted for new readers; older ones may still see it.
    pub dead: bool,
}

pub struct NodeV {
    pub vid: u64,
    pub vector: Seq<u32>,
    pub neighbors: Seq<Seq<usize>>,
    pub removed: bool,
    pub dead: bool,
}

pub open spec fn links_view(v: Seq<Vec<usize>>) -> Seq<Seq<usize>> {
    Seq::new(v.len(), |i: int| v[i]@)
}

impl View for Node {
    type V = NodeV;

    open spec fn view(&self) -> NodeV {
        NodeV {
            vid: self.vid,
            vector: self.vector@,
            neighbors: links_view(self.neighbors@),
            removed: self.removed,
            dead: self.dead,
        }
    }
}

pub open spec fn nodes_view(v: Seq<Node>) -> Seq<NodeV> {
    Seq::new(v.len(), |i: int| v[i]@)
}

/// The neighbours of a node on a layer.
pub open spec fn links(nodes: Seq<NodeV>, idx: usize, level: usize) -> Seq<usize> {
    if idx < nodes.len() && level < nodes[idx as int].neighbors.len() {
        nodes[idx as int].neighbors[level as int]
    } else {
        Seq::empty()
    }
}

fn degree(nodes: &Vec<Node>, idx: usize, level: usize) -> (r: usize)
    ensures
        r == links(nodes_view(nodes@), idx, level).len(),
{
    if idx < nodes.len() {
        assert(nodes_view(nodes@)[idx as int] == nodes@[idx as int]@);
        assert(nodes@[idx as int]@.neighbors.len() == nodes@[idx as int].neighbors@.len());
        if level < nodes[idx].neighbors.len() {
            return nodes[idx].neighbors[level].len();
        }
    }
    0
}

fn link_at(nodes: &Vec<Node>, idx: usize, level: usize, j: usize) -> (r: usize)
    requires
        j < links(nodes_view(nodes@), idx, level).len(),
    ensures
        r == links(nodes_view(nodes@), idx, level)[j as int],
{
    assert(nodes_view(nodes@)[idx as int] == nodes@[idx as int]@);
    assert(nodes@[idx as int]@.neighbors.len() == nodes@[idx as int].neighbors@.len());
    nodes[idx].neighbors[level][j]
}

// ---- searching one layer --------------------------------------------------------------------------

/// A search of one layer under way: what it has seen, what it has still to follow,
/// and the best it has found, both nearest first.
pub struct Layer {
    pub visited: Vec<bool>,
    pub cand: Vec<Scored>,
    pub found: Vec<Scored>,
}

pub struct LayerV {
    pub visited: Seq<bool>,
    pub cand: Seq<Scored>,
    pub found: Seq<Scored>,
}

impl View for Layer {
    type V = LayerV;

    open spec fn view(&self) -> LayerV {
        LayerV { visited: self.visited@, cand: self.cand@, found: self.found@ }
    }
}

/// The distances that are missing, as pairs of nodes.
pub type Want = Seq<(usize, usize)>;

/// Whether a distance is below that of the farthest found.
pub open spec fn below(d: u64, found: Seq<Scored>) -> bool {
    found.len() == 0 || real_order(d, found.last().dist) == Some(Order::Less)
}

pub open spec fn above(d: u64, found: Seq<Scored>) -> bool {
    found.len() > 0 && real_order(d, found.last().dist) == Some(Order::Greater)
}

fn is_below(d: u64, found: &Vec<Scored>) -> (r: bool)
    ensures
        r == below(d, found@),
{
    let n: usize = found.len();
    if n == 0 {
        return true;
    }
    match compare_reals(d, found[n - 1].dist) {
        Some(Order::Less) => true,
        _ => false,
    }
}

fn is_above(d: u64, found: &Vec<Scored>) -> (r: bool)
    ensures
        r == above(d, found@),
{
    let n: usize = found.len();
    if n == 0 {
        return false;
    }
    match compare_reals(d, found[n - 1].dist) {
        Some(Order::Greater) => true,
        _ => false,
    }
}

/// No more than `ef`, the farthest gone.
pub open spec fn trimmed(v: Seq<Scored>, ef: usize) -> Seq<Scored> {
    if v.len() > ef {
        v.drop_last()
    } else {
        v
    }
}

/// What seeing a neighbour does: one seen before, nothing; one that is near enough
/// is found, and will be followed.
pub open spec fn seen(st: LayerV, k: Map<u128, u64>, q: usize, ef: usize, nb: usize) -> LayerV {
    if nb >= st.visited.len() || st.visited[nb as int] {
        st
    } else {
        let visited = st.visited.update(nb as int, true);
        match known(k, q, nb) {
            None => LayerV { visited, ..st },
            Some(dist) => if below(dist, st.found) || st.found.len() < ef {
                let s = Scored { dist, idx: nb };
                LayerV { visited, cand: put(st.cand, s), found: trimmed(put(st.found, s), ef) }
            } else {
                LayerV { visited, ..st }
            },
        }
    }
}

/// What seeing the neighbours from `j` on does.
pub open spec fn seen_from(
    st: LayerV,
    k: Map<u128, u64>,
    q: usize,
    ef: usize,
    nbs: Seq<usize>,
    j: int,
) -> LayerV
    decreases nbs.len() - j,
{
    if j < 0 || j >= nbs.len() {
        st
    } else {
        seen_from(seen(st, k, q, ef, nbs[j]), k, q, ef, nbs, j + 1)
    }
}

/// The distances that are missing for the neighbours from `j` on.
pub open spec fn wanted_from(
    visited: Seq<bool>,
    k: Map<u128, u64>,
    q: usize,
    nbs: Seq<usize>,
    j: int,
    acc: Want,
) -> Want
    decreases nbs.len() - j,
{
    if j < 0 || j >= nbs.len() {
        acc
    } else if nbs[j] < visited.len() && !visited[nbs[j] as int] && known(k, q, nbs[j]) is None {
        wanted_from(visited, k, q, nbs, j + 1, acc.push((q, nbs[j])))
    } else {
        wanted_from(visited, k, q, nbs, j + 1, acc)
    }
}

/// Follow the nearest of what is left, until it is farther than all that was found.
/// Every node is followed at most once, so as many steps as there are nodes do.
pub open spec fn walk(
    nodes: Seq<NodeV>,
    k: Map<u128, u64>,
    q: usize,
    ef: usize,
    level: usize,
    st: LayerV,
    steps: nat,
) -> Result<Seq<Scored>, Want>
    decreases steps,
{
    if steps == 0 || st.cand.len() == 0 {
        Ok(st.found)
    } else {
        let c = st.cand[0];
        if above(c.dist, st.found) && st.found.len() >= ef {
            Ok(st.found)
        } else {
            let nbs = links(nodes, c.idx, level);
            let want = wanted_from(st.visited, k, q, nbs, 0, Seq::empty());
            if want.len() > 0 {
                Err(want)
            } else {
                walk(
                    nodes,
                    k,
                    q,
                    ef,
                    level,
                    seen_from(LayerV { cand: st.cand.drop_first(), ..st }, k, q, ef, nbs, 0),
                    (steps - 1) as nat,
                )
            }
        }
    }
}

pub open spec fn flags(n: nat, at: usize) -> Seq<bool> {
    Seq::new(n, |i: int| i == at)
}

pub open spec fn start(nodes: Seq<NodeV>, entry: usize, dist: u64) -> LayerV {
    let s = Scored { dist, idx: entry };
    LayerV { visited: flags(nodes.len(), entry), cand: seq![s], found: seq![s] }
}

/// The nodes of a layer that are nearest to `q`, from an entry on: at most `ef` of
/// them, nearest first.
pub open spec fn layer_found(
    nodes: Seq<NodeV>,
    k: Map<u128, u64>,
    q: usize,
    entry: usize,
    ef: usize,
    level: usize,
) -> Result<Seq<Scored>, Want> {
    match known(k, q, entry) {
        None => Err(seq![(q, entry)]),
        Some(dist) => walk(nodes, k, q, ef, level, start(nodes, entry, dist), nodes.len()),
    }
}

pub open spec fn scored_result(r: Result<Vec<Scored>, Vec<(usize, usize)>>) -> Result<
    Seq<Scored>,
    Want,
> {
    match r {
        Ok(v) => Ok(v@),
        Err(w) => Err(w@),
    }
}

fn see(st: &mut Layer, k: &Known, q: usize, ef: usize, nb: usize)
    ensures
        final(st)@ == seen(old(st)@, k@, q, ef, nb),
{
    if nb >= st.visited.len() || st.visited[nb] {
        return;
    }
    st.visited.set(nb, true);
    match k.get(q, nb) {
        None => {},
        Some(dist) => {
            if is_below(dist, &st.found) || st.found.len() < ef {
                let s = Scored { dist, idx: nb };
                put_in(&mut st.cand, s);
                put_in(&mut st.found, s);
                if st.found.len() > ef {
                    let ghost f = st.found@;
                    let _far = st.found.pop();
                    assert(st.found@ =~= f.drop_last());
                }
            }
        },
    }
}

fn see_all(st: &mut Layer, nodes: &Vec<Node>, k: &Known, q: usize, ef: usize, at: usize, level: usize)
    ensures
        final(st)@ == seen_from(
            old(st)@,
            k@,
            q,
            ef,
            links(nodes_view(nodes@), at, level),
            0,
        ),
{
    let ghost st0 = st@;
    let ghost nbs = links(nodes_view(nodes@), at, level);
    let n: usize = degree(nodes, at, level);
    let mut j: usize = 0;
    while j < n
        invariant
            j <= n,
            n == nbs.len(),
            nbs == links(nodes_view(nodes@), at, level),
            seen_from(st@, k@, q, ef, nbs, j as int) == seen_from(st0, k@, q, ef, nbs, 0),
        decreases n - j,
    {
        let nb: usize = link_at(nodes, at, level, j);
        see(st, k, q, ef, nb);
        j += 1;
    }
}

fn find_wanted(st: &Layer, nodes: &Vec<Node>, k: &Known, q: usize, at: usize, level: usize) -> (r: Vec<
    (usize, usize),
>)
    ensures
        r@ == wanted_from(
            st@.visited,
            k@,
            q,
            links(nodes_view(nodes@), at, level),
            0,
            Seq::empty(),
        ),
{
    let ghost nbs = links(nodes_view(nodes@), at, level);
    let n: usize = degree(nodes, at, level);
    let mut out: Vec<(usize, usize)> = Vec::new();
    let mut j: usize = 0;
    while j < n
        invariant
            j <= n,
            n == nbs.len(),
            nbs == links(nodes_view(nodes@), at, level),
            wanted_from(st@.visited, k@, q, nbs, j as int, out@) == wanted_from(
                st@.visited,
                k@,
                q,
                nbs,
                0,
                Seq::empty(),
            ),
        decreases n - j,
    {
        let nb: usize = link_at(nodes, at, level, j);
        if nb < st.visited.len() && !st.visited[nb] && k.get(q, nb).is_none() {
            out.push((q, nb));
        }
        j += 1;
    }
    out
}

fn first_flags(n: usize, at: usize) -> (r: Vec<bool>)
    ensures
        r@ == flags(n as nat, at),
{
    let mut out: Vec<bool> = Vec::new();
    let mut i: usize = 0;
    while i < n
        invariant
            i <= n,
            out@.len() == i,
            forall|j: int| 0 <= j < i ==> out@[j] == (j == at),
        decreases n - i,
    {
        out.push(i == at);
        i += 1;
    }
    assert(out@ =~= flags(n as nat, at));
    out
}

/// Search one layer.
fn search_layer(nodes: &Vec<Node>, k: &Known, q: usize, entry: usize, ef: usize, level: usize) -> (r:
    Result<Vec<Scored>, Vec<(usize, usize)>>)
    ensures
        scored_result(r) == layer_found(nodes_view(nodes@), k@, q, entry, ef, level),
{
    let ghost nv = nodes_view(nodes@);
    match k.get(q, entry) {
        None => {
            let mut w: Vec<(usize, usize)> = Vec::new();
            w.push((q, entry));
            assert(w@ =~= seq![(q, entry)]);
            Err(w)
        },
        Some(dist) => {
            let s = Scored { dist, idx: entry };
            let mut cand: Vec<Scored> = Vec::new();
            cand.push(s);
            let mut found: Vec<Scored> = Vec::new();
            found.push(s);
            let mut st = Layer { visited: first_flags(nodes.len(), entry), cand, found };
            let ghost st0 = start(nv, entry, dist);
            assert(st@.cand =~= st0.cand);
            assert(st@.found =~= st0.found);
            let ghost want = walk(nv, k@, q, ef, level, st0, nv.len());
            let mut steps: usize = nodes.len();
            while steps > 0 && st.cand.len() > 0
                invariant
                    nv == nodes_view(nodes@),
                    walk(nv, k@, q, ef, level, st@, steps as nat) == want,
                    layer_found(nv, k@, q, entry, ef, level) == want,
                decreases steps,
            {
                let c = st.cand[0];
                if is_above(c.dist, &st.found) && st.found.len() >= ef {
                    return Ok(st.found);
                }
                let w = find_wanted(&st, nodes, k, q, c.idx, level);
                if w.len() > 0 {
                    return Err(w);
                }
                let ghost st1 = st@;
                let _c = st.cand.remove(0);
                assert(st.cand@ =~= st1.cand.drop_first());
                see_all(&mut st, nodes, k, q, ef, c.idx, level);
                steps -= 1;
            }
            Ok(st.found)
        },
    }
}

// ---- searching the graph --------------------------------------------------------------------------

/// The nearest found, or where the search started.
pub open spec fn best(found: Seq<Scored>, ep: usize) -> usize {
    if found.len() > 0 {
        found[0].idx
    } else {
        ep
    }
}

/// Greedily down from layer `l` to layer `stop`.
pub open spec fn descended(
    nodes: Seq<NodeV>,
    k: Map<u128, u64>,
    q: usize,
    ep: usize,
    l: usize,
    stop: usize,
) -> Result<usize, Want>
    decreases l,
{
    if l <= stop {
        Ok(ep)
    } else {
        match layer_found(nodes, k, q, ep, 1, l) {
            Err(w) => Err(w),
            Ok(found) => descended(nodes, k, q, best(found, ep), (l - 1) as usize, stop),
        }
    }
}

fn descend(nodes: &Vec<Node>, k: &Known, q: usize, ep: usize, l: usize, stop: usize) -> (r: Result<
    usize,
    Vec<(usize, usize)>,
>)
    ensures
        descended(nodes_view(nodes@), k@, q, ep, l, stop) == (match r {
            Ok(n) => Ok::<usize, Want>(n),
            Err(w) => Err(w@),
        }),
{
    let ghost nv = nodes_view(nodes@);
    let mut at: usize = ep;
    let mut n: usize = l;
    while n > stop
        invariant
            nv == nodes_view(nodes@),
            descended(nv, k@, q, at, n, stop) == descended(nv, k@, q, ep, l, stop),
        decreases n,
    {
        let found = search_layer(nodes, k, q, at, 1, n)?;
        if found.len() > 0 {
            at = found[0].idx;
        }
        n -= 1;
    }
    Ok(at)
}

/// What a search gives of what it found from `i` on: at most `want`, without nodes
/// that are gone.
pub open spec fn shown_from(
    nodes: Seq<NodeV>,
    found: Seq<Scored>,
    i: int,
    acc: Seq<(u64, u64)>,
    want: nat,
) -> Seq<(u64, u64)>
    decreases found.len() - i,
{
    if i < 0 || i >= found.len() || acc.len() >= want {
        acc
    } else if found[i].idx >= nodes.len() || nodes[found[i].idx as int].removed {
        shown_from(nodes, found, i + 1, acc, want)
    } else {
        shown_from(
            nodes,
            found,
            i + 1,
            acc.push((nodes[found[i].idx as int].vid, found[i].dist)),
            want,
        )
    }
}

/// The index of one vector column.
pub struct VectorIndex {
    pub def: IndexDef,
    pub nodes: Vec<Node>,
    /// The node of each version, those gone left out.
    pub by_vid: HashMap<u64, usize>,
    /// Where searches start.
    pub entry: Option<usize>,
    pub max_level: usize,
    /// The state of the draws of layers.
    pub rng: u64,
    /// How many nodes are deleted for new readers.
    pub dead_count: usize,
    /// The oldest snapshot that the graph can answer.
    pub rebuild_floor: u64,
}

pub struct GraphV {
    pub def: IndexDefV,
    pub nodes: Seq<NodeV>,
    pub by_vid: Map<u64, usize>,
    pub entry: Option<usize>,
    pub max_level: usize,
    pub rng: u64,
    pub dead_count: usize,
    pub rebuild_floor: u64,
}

impl View for VectorIndex {
    type V = GraphV;

    open spec fn view(&self) -> GraphV {
        GraphV {
            def: self.def@,
            nodes: nodes_view(self.nodes@),
            by_vid: self.by_vid@,
            entry: self.entry,
            max_level: self.max_level,
            rng: self.rng,
            dead_count: self.dead_count,
            rebuild_floor: self.rebuild_floor,
        }
    }
}

pub open spec fn new_graph(def: IndexDefV) -> GraphV {
    GraphV {
        def,
        nodes: Seq::empty(),
        by_vid: Map::empty(),
        entry: None,
        max_level: 0,
        rng: DRAW_SEED,
        dead_count: 0,
        rebuild_floor: 0,
    }
}

/// How many of the first `n` nodes are deleted for new readers, those gone left out.
pub open spec fn dead_nodes(nodes: Seq<NodeV>, n: int) -> nat
    decreases n,
{
    if n <= 0 || n > nodes.len() {
        0
    } else if nodes[n - 1].dead && !nodes[n - 1].removed {
        dead_nodes(nodes, n - 1) + 1
    } else {
        dead_nodes(nodes, n - 1)
    }
}

/// Versions and nodes belong together: every version leads to a node of its own that
/// is not gone, and every such node is led to.
pub open spec fn mapped(nodes: Seq<NodeV>, by_vid: Map<u64, usize>) -> bool {
    &&& forall|vid: u64| #[trigger]
        by_vid.contains_key(vid) ==> {
            &&& by_vid[vid] < nodes.len()
            &&& nodes[by_vid[vid] as int].vid == vid
            &&& !nodes[by_vid[vid] as int].removed
        }
    &&& forall|i: int|
        0 <= i < nodes.len() && !(#[trigger] nodes[i]).removed ==> by_vid.contains_key(
            nodes[i].vid,
        ) && by_vid[nodes[i].vid] == i
}

/// Whether every neighbour is a node.
pub open spec fn links_ok(nodes: Seq<NodeV>) -> bool {
    forall|i: int, l: int, j: int|
        #![trigger nodes[i].neighbors[l][j]]
        0 <= i < nodes.len() && 0 <= l < nodes[i].neighbors.len() && 0 <= j
            < nodes[i].neighbors[l].len() ==> nodes[i].neighbors[l][j] < nodes.len()
}

/// Links and the entry of a graph lead to nodes of its own.
pub open spec fn whole(g: GraphV) -> bool {
    links_ok(g.nodes) && (g.entry is Some ==> g.entry->0 < g.nodes.len())
}

/// What holds of every graph: versions and nodes belong together, as many are counted
/// as deleted as are, links and the entry lead to nodes, and layers are numbered in
/// four bytes.
pub open spec fn graph_ok(g: GraphV) -> bool {
    &&& mapped(g.nodes, g.by_vid)
    &&& g.dead_count == dead_nodes(g.nodes, g.nodes.len() as int)
    &&& whole(g)
    &&& g.max_level <= u32::MAX
}

/// Links that stay lead to nodes still.
proof fn lemma_links_stay(a: Seq<NodeV>, b: Seq<NodeV>)
    requires
        links_ok(a),
        a.len() == b.len(),
        forall|i: int| 0 <= i < a.len() ==> (#[trigger] b[i]).neighbors == a[i].neighbors,
    ensures
        links_ok(b),
{
    assert forall|i: int, l: int, j: int|
        #![trigger b[i].neighbors[l][j]]
        0 <= i < b.len() && 0 <= l < b[i].neighbors.len() && 0 <= j
            < b[i].neighbors[l].len() implies b[i].neighbors[l][j] < b.len() by {
        assert(b[i].neighbors == a[i].neighbors);
        assert(a[i].neighbors[l][j] < a.len());
    }
}

/// Marks and vectors stay where links change.
pub open spec fn relinked(a: Seq<NodeV>, b: Seq<NodeV>) -> bool {
    &&& b.len() == a.len()
    &&& forall|i: int|
        0 <= i < a.len() ==> (#[trigger] b[i]).vid == a[i].vid && b[i].dead == a[i].dead
            && b[i].removed == a[i].removed && b[i].vector == a[i].vector
}

proof fn lemma_dead_nodes(a: Seq<NodeV>, b: Seq<NodeV>, n: int)
    requires
        0 <= n <= a.len(),
        n <= b.len(),
        forall|i: int|
            0 <= i < n ==> (#[trigger] b[i]).dead == a[i].dead && b[i].removed == a[i].removed,
    ensures
        dead_nodes(b, n) == dead_nodes(a, n),
        dead_nodes(a, n) <= n,
    decreases n,
{
    if n > 0 {
        lemma_dead_nodes(a, b, n - 1);
    }
}

/// Where one node is counted and another in its place is not.
proof fn lemma_dead_marked(a: Seq<NodeV>, b: Seq<NodeV>, at: int, n: int)
    requires
        0 <= n <= a.len(),
        a.len() == b.len(),
        forall|i: int|
            0 <= i < n && i != at ==> (#[trigger] b[i]).dead == a[i].dead && b[i].removed
                == a[i].removed,
        0 <= at < a.len(),
        !(a[at].dead && !a[at].removed),
        b[at].dead && !b[at].removed,
    ensures
        dead_nodes(b, n) == dead_nodes(a, n) + (if at < n {
            1int
        } else {
            0
        }),
        dead_nodes(b, n) <= n,
    decreases n,
{
    if n > 0 {
        lemma_dead_marked(a, b, at, n - 1);
    }
}

proof fn lemma_undead(a: Seq<NodeV>, b: Seq<NodeV>, at: int, n: int)
    requires
        0 <= n <= a.len(),
        a.len() == b.len(),
        forall|i: int|
            0 <= i < n && i != at ==> (#[trigger] b[i]).dead == a[i].dead && b[i].removed
                == a[i].removed,
        0 <= at < a.len(),
        !a[at].dead,
        !b[at].dead,
    ensures
        dead_nodes(b, n) == dead_nodes(a, n),
    decreases n,
{
    if n > 0 {
        lemma_undead(a, b, at, n - 1);
    }
}

// ---- draws ----------------------------------------------------------------------------------------

/// The state of the draws after one.
pub open spec fn drawn(rng: u64) -> u64 {
    rng.wrapping_add(0x9E37_79B9_7F4A_7C15)
}

/// The number drawn at a state.
pub open spec fn draw_of(state: u64) -> u64 {
    let a = (state ^ (state >> 30)).wrapping_mul(0xBF58_476D_1CE4_E5B9);
    let b = (a ^ (a >> 27)).wrapping_mul(0x94D0_49BB_1331_11EB);
    b ^ (b >> 31)
}

// ---- insertion ------------------------------------------------------------------------------------

/// How many neighbours a node keeps on a layer.
pub open spec fn room(p: IndexParams, level: usize) -> usize {
    if level == 0 {
        if p.m > usize::MAX / 2 {
            usize::MAX
        } else {
            (p.m * 2) as usize
        }
    } else {
        p.m
    }
}

fn room_at(p: &IndexParams, level: usize) -> (r: usize)
    ensures
        r == room(*p, level),
{
    if level == 0 {
        if p.m > usize::MAX / 2 {
            usize::MAX
        } else {
            p.m * 2
        }
    } else {
        p.m
    }
}

pub open spec fn front(v: Seq<Scored>, m: usize) -> Seq<Scored> {
    if v.len() > m {
        v.take(m as int)
    } else {
        v
    }
}

/// The neighbours that a new node gets on the layers below `n`, from the top down.
pub open spec fn chosen(
    nodes: Seq<NodeV>,
    k: Map<u128, u64>,
    p: IndexParams,
    q: usize,
    ep: usize,
    n: nat,
    acc: Seq<Seq<Scored>>,
) -> Result<Seq<Seq<Scored>>, Want>
    decreases n,
{
    if n == 0 {
        Ok(acc)
    } else {
        let level = (n - 1) as usize;
        match layer_found(nodes, k, q, ep, p.ef_construction, level) {
            Err(w) => Err(w),
            Ok(found) => chosen(
                nodes,
                k,
                p,
                q,
                best(found, ep),
                level as nat,
                acc.push(front(found, room(p, level))),
            ),
        }
    }
}

pub open spec fn layers_view(v: Seq<Vec<Scored>>) -> Seq<Seq<Scored>> {
    Seq::new(v.len(), |i: int| v[i]@)
}

fn choose_layers(nodes: &Vec<Node>, k: &Known, p: &IndexParams, q: usize, ep: usize, n: usize) -> (r:
    Result<Vec<Vec<Scored>>, Vec<(usize, usize)>>)
    ensures
        chosen(nodes_view(nodes@), k@, *p, q, ep, n as nat, Seq::empty()) == (match r {
            Ok(v) => Ok::<Seq<Seq<Scored>>, Want>(layers_view(v@)),
            Err(w) => Err(w@),
        }),
{
    let ghost nv = nodes_view(nodes@);
    let mut out: Vec<Vec<Scored>> = Vec::new();
    assert(layers_view(out@) =~= Seq::<Seq<Scored>>::empty());
    let mut at: usize = ep;
    let mut left: usize = n;
    while left > 0
        invariant
            nv == nodes_view(nodes@),
            chosen(nv, k@, *p, q, at, left as nat, layers_view(out@)) == chosen(
                nv,
                k@,
                *p,
                q,
                ep,
                n as nat,
                Seq::empty(),
            ),
        decreases left,
    {
        let level: usize = left - 1;
        let mut found = search_layer(nodes, k, q, at, p.ef_construction, level)?;
        let ghost fv = found@;
        if found.len() > 0 {
            at = found[0].idx;
        }
        let m: usize = room_at(p, level);
        if found.len() > m {
            found.truncate(m);
            assert(found@ =~= fv.take(m as int));
        }
        let ghost before = layers_view(out@);
        let ghost row = found@;
        out.push(found);
        assert(layers_view(out@) =~= before.push(row));
        left -= 1;
    }
    Ok(out)
}

/// The distances that are missing to sort the neighbours `nbs` of `a`.
pub open spec fn unsorted_from(k: Map<u128, u64>, a: usize, nbs: Seq<usize>, j: int, acc: Want) -> Want
    decreases nbs.len() - j,
{
    if j < 0 || j >= nbs.len() {
        acc
    } else if known(k, a, nbs[j]) is None {
        unsorted_from(k, a, nbs, j + 1, acc.push((a, nbs[j])))
    } else {
        unsorted_from(k, a, nbs, j + 1, acc)
    }
}

/// The distances that are missing to prune the chosen nodes from `j` on, once each
/// has the new node for a neighbour.
pub open spec fn unpruned_from(
    nodes: Seq<NodeV>,
    k: Map<u128, u64>,
    q: usize,
    level: usize,
    m: usize,
    row: Seq<Scored>,
    j: int,
    acc: Want,
) -> Want
    decreases row.len() - j,
{
    if j < 0 || j >= row.len() {
        acc
    } else {
        let nbs = links(nodes, row[j].idx, level).push(q);
        unpruned_from(
            nodes,
            k,
            q,
            level,
            m,
            row,
            j + 1,
            if nbs.len() > m {
                unsorted_from(k, row[j].idx, nbs, 0, acc)
            } else {
                acc
            },
        )
    }
}

/// The distances that are missing to prune on all layers from the `r`-th chosen one
/// on; the first is layer `top`.
pub open spec fn unlinked_from(
    nodes: Seq<NodeV>,
    k: Map<u128, u64>,
    p: IndexParams,
    q: usize,
    top: usize,
    rows: Seq<Seq<Scored>>,
    r: int,
    acc: Want,
) -> Want
    decreases rows.len() - r,
{
    if r < 0 || r >= rows.len() || r > top {
        acc
    } else {
        let level = (top - r) as usize;
        unlinked_from(
            nodes,
            k,
            p,
            q,
            top,
            rows,
            r + 1,
            unpruned_from(nodes, k, q, level, room(p, level), rows[r], 0, acc),
        )
    }
}

fn find_unpruned(
    nodes: &Vec<Node>,
    k: &Known,
    q: usize,
    level: usize,
    m: usize,
    row: &Vec<Scored>,
    want: Vec<(usize, usize)>,
) -> (r: Vec<(usize, usize)>)
    ensures
        r@ == unpruned_from(nodes_view(nodes@), k@, q, level, m, row@, 0, want@),
{
    let ghost nv = nodes_view(nodes@);
    let mut out = want;
    let mut j: usize = 0;
    while j < row.len()
        invariant
            j <= row@.len(),
            nv == nodes_view(nodes@),
            unpruned_from(nv, k@, q, level, m, row@, j as int, out@) == unpruned_from(
                nv,
                k@,
                q,
                level,
                m,
                row@,
                0,
                want@,
            ),
        decreases row@.len() - j,
    {
        let a: usize = row[j].idx;
        let n: usize = degree(nodes, a, level);
        let ghost old = links(nv, a, level);
        let ghost nbs = old.push(q);
        if n >= m {
            let ghost acc = out@;
            let mut i: usize = 0;
            while i < n
                invariant
                    i <= n,
                    nv == nodes_view(nodes@),
                    old == links(nv, a, level),
                    n == old.len(),
                    nbs == old.push(q),
                    unsorted_from(k@, a, nbs, i as int, out@) == unsorted_from(
                        k@,
                        a,
                        nbs,
                        0,
                        acc,
                    ),
                decreases n - i,
            {
                let nb: usize = link_at(nodes, a, level, i);
                assert(nbs[i as int] == nb);
                if k.get(a, nb).is_none() {
                    out.push((a, nb));
                }
                i += 1;
            }
            assert(nbs[n as int] == q);
            assert(nbs.len() == n + 1);
            if k.get(a, q).is_none() {
                out.push((a, q));
            }
            assert(unsorted_from(k@, a, nbs, n + 1, out@) == out@);
        }
        j += 1;
    }
    out
}

fn find_unlinked(
    nodes: &Vec<Node>,
    k: &Known,
    p: &IndexParams,
    q: usize,
    top: usize,
    rows: &Vec<Vec<Scored>>,
) -> (r: Vec<(usize, usize)>)
    ensures
        r@ == unlinked_from(
            nodes_view(nodes@),
            k@,
            *p,
            q,
            top,
            layers_view(rows@),
            0,
            Seq::empty(),
        ),
{
    let ghost nv = nodes_view(nodes@);
    let ghost rv = layers_view(rows@);
    let mut out: Vec<(usize, usize)> = Vec::new();
    let mut r: usize = 0;
    while r < rows.len() && r <= top
        invariant
            r <= rows@.len(),
            nv == nodes_view(nodes@),
            rv == layers_view(rows@),
            unlinked_from(nv, k@, *p, q, top, rv, r as int, out@) == unlinked_from(
                nv,
                k@,
                *p,
                q,
                top,
                rv,
                0,
                Seq::empty(),
            ),
        decreases rows@.len() - r,
    {
        assert(rv[r as int] == rows@[r as int]@);
        let level: usize = top - r;
        out = find_unpruned(nodes, k, q, level, room_at(p, level), &rows[r], out);
        r += 1;
    }
    out
}

// ---- linking --------------------------------------------------------------------------------------

/// The layers of a node, with layer `level` among them.
pub open spec fn raised(v: Seq<Seq<usize>>, level: usize) -> Seq<Seq<usize>>
    decreases level + 1 - v.len(),
{
    if v.len() > level {
        v
    } else {
        raised(v.push(Seq::empty()), level)
    }
}

pub open spec fn with_links(nodes: Seq<NodeV>, a: usize, v: Seq<Seq<usize>>) -> Seq<NodeV> {
    nodes.update(a as int, NodeV { neighbors: v, ..nodes[a as int] })
}

/// With `b` a neighbour of `a` on a layer.
pub open spec fn connected(nodes: Seq<NodeV>, a: usize, b: usize, level: usize) -> Seq<NodeV> {
    if a == b || a >= nodes.len() {
        nodes
    } else {
        let v = raised(nodes[a as int].neighbors, level);
        if v[level as int].contains(b) {
            with_links(nodes, a, v)
        } else {
            with_links(nodes, a, v.update(level as int, v[level as int].push(b)))
        }
    }
}

/// The neighbours from `j` on, sorted by their distance from `a` into `acc`.
pub open spec fn ranked_from(k: Map<u128, u64>, a: usize, nbs: Seq<usize>, j: int, acc: Seq<Scored>) -> Seq<
    Scored,
>
    decreases nbs.len() - j,
{
    if j < 0 || j >= nbs.len() {
        acc
    } else {
        ranked_from(
            k,
            a,
            nbs,
            j + 1,
            match known(k, a, nbs[j]) {
                Some(dist) => put(acc, Scored { dist, idx: nbs[j] }),
                None => acc,
            },
        )
    }
}

pub open spec fn indexes_of(v: Seq<Scored>) -> Seq<usize> {
    Seq::new(v.len(), |i: int| v[i].idx)
}

/// With no more than `m` neighbours of `a` on a layer, the nearest.
pub open spec fn pruned(nodes: Seq<NodeV>, k: Map<u128, u64>, a: usize, level: usize, m: usize) -> Seq<
    NodeV,
> {
    let nbs = links(nodes, a, level);
    if nbs.len() <= m {
        nodes
    } else {
        with_links(
            nodes,
            a,
            nodes[a as int].neighbors.update(
                level as int,
                indexes_of(front(ranked_from(k, a, nbs, 0, Seq::empty()), m)),
            ),
        )
    }
}

/// With the chosen nodes from `j` on linked to `q` on a layer, and pruned.
pub open spec fn linked_from(
    nodes: Seq<NodeV>,
    k: Map<u128, u64>,
    q: usize,
    level: usize,
    m: usize,
    row: Seq<Scored>,
    j: int,
) -> Seq<NodeV>
    decreases row.len() - j,
{
    if j < 0 || j >= row.len() {
        nodes
    } else {
        let s = row[j].idx;
        linked_from(
            pruned(
                connected(connected(nodes, q, s, level), s, q, level),
                k,
                s,
                level,
                m,
            ),
            k,
            q,
            level,
            m,
            row,
            j + 1,
        )
    }
}

/// With the chosen nodes of every layer linked, from the `r`-th on.
pub open spec fn woven_from(
    nodes: Seq<NodeV>,
    k: Map<u128, u64>,
    p: IndexParams,
    q: usize,
    top: usize,
    rows: Seq<Seq<Scored>>,
    r: int,
) -> Seq<NodeV>
    decreases rows.len() - r,
{
    if r < 0 || r >= rows.len() || r > top {
        nodes
    } else {
        let level = (top - r) as usize;
        woven_from(
            linked_from(nodes, k, q, level, room(p, level), rows[r], 0),
            k,
            p,
            q,
            top,
            rows,
            r + 1,
        )
    }
}

fn contains_link(v: &Vec<usize>, b: usize) -> (r: bool)
    ensures
        r == v@.contains(b),
{
    let mut i: usize = 0;
    while i < v.len()
        invariant
            i <= v@.len(),
            forall|j: int| 0 <= j < i ==> v@[j] != b,
        decreases v@.len() - i,
    {
        if v[i] == b {
            assert(v@[i as int] == b);
            return true;
        }
        i += 1;
    }
    false
}

fn connect(nodes: &mut Vec<Node>, a: usize, b: usize, level: usize)
    ensures
        nodes_view(final(nodes)@) == connected(nodes_view(old(nodes)@), a, b, level),
        relinked(nodes_view(old(nodes)@), nodes_view(final(nodes)@)),
{
    let ghost nv = nodes_view(nodes@);
    if a == b || a >= nodes.len() {
        return;
    }
    assert(nv[a as int] == nodes@[a as int]@);
    let mut v: Vec<Vec<usize>> = Vec::new();
    std::mem::swap(&mut v, &mut nodes[a].neighbors);
    let ghost v0 = nv[a as int].neighbors;
    assert(links_view(v@) =~= v0);
    while v.len() <= level
        invariant
            raised(links_view(v@), level) == raised(v0, level),
        decreases level + 1 - v@.len(),
    {
        let ghost before = links_view(v@);
        let empty: Vec<usize> = Vec::new();
        assert(empty@ =~= Seq::<usize>::empty());
        v.push(empty);
        assert(links_view(v@) =~= before.push(Seq::empty()));
    }
    let ghost r = raised(v0, level);
    assert(links_view(v@) == r);
    assert(r[level as int] == v@[level as int]@);
    if !contains_link(&v[level], b) {
        v[level].push(b);
        assert(links_view(v@) =~= r.update(level as int, r[level as int].push(b)));
    }
    nodes[a].neighbors = v;
    proof {
        assert(nodes_view(nodes@) =~= connected(nv, a, b, level));
    }
}

fn rank_links(k: &Known, a: usize, nbs: &Vec<usize>) -> (r: Vec<Scored>)
    ensures
        r@ == ranked_from(k@, a, nbs@, 0, Seq::empty()),
{
    let mut out: Vec<Scored> = Vec::new();
    let mut j: usize = 0;
    while j < nbs.len()
        invariant
            j <= nbs@.len(),
            ranked_from(k@, a, nbs@, j as int, out@) == ranked_from(
                k@,
                a,
                nbs@,
                0,
                Seq::empty(),
            ),
        decreases nbs@.len() - j,
    {
        match k.get(a, nbs[j]) {
            Some(dist) => {
                put_in(&mut out, Scored { dist, idx: nbs[j] });
            },
            None => {},
        }
        j += 1;
    }
    out
}

fn prune(nodes: &mut Vec<Node>, k: &Known, a: usize, level: usize, m: usize)
    ensures
        nodes_view(final(nodes)@) == pruned(nodes_view(old(nodes)@), k@, a, level, m),
        relinked(nodes_view(old(nodes)@), nodes_view(final(nodes)@)),
{
    let ghost nv = nodes_view(nodes@);
    if degree(nodes, a, level) <= m {
        return;
    }
    assert(nv[a as int] == nodes@[a as int]@);
    assert(nv[a as int].neighbors.len() == nodes@[a as int].neighbors@.len());
    let ranked = rank_links(k, a, &nodes[a].neighbors[level]);
    let ghost rv = front(ranked@, m);
    let n: usize = if ranked.len() > m {
        m
    } else {
        ranked.len()
    };
    let mut kept: Vec<usize> = Vec::new();
    let mut i: usize = 0;
    while i < n
        invariant
            i <= n,
            n == rv.len(),
            n <= ranked@.len(),
            rv == front(ranked@, m),
            kept@ == indexes_of(rv).take(i as int),
        decreases n - i,
    {
        let ghost before = kept@;
        kept.push(ranked[i].idx);
        assert(rv[i as int] == ranked@[i as int]);
        assert(indexes_of(rv).take(i + 1) =~= before.push(rv[i as int].idx));
        i += 1;
    }
    assert(indexes_of(rv).take(i as int) =~= indexes_of(rv));
    let mut v: Vec<Vec<usize>> = Vec::new();
    std::mem::swap(&mut v, &mut nodes[a].neighbors);
    let ghost v0 = nv[a as int].neighbors;
    let ghost kv = kept@;
    v.set(level, kept);
    assert(links_view(v@) =~= v0.update(level as int, kv));
    nodes[a].neighbors = v;
    proof {
        assert(nodes_view(nodes@) =~= pruned(nv, k@, a, level, m));
    }
}

fn link_row(nodes: &mut Vec<Node>, k: &Known, q: usize, level: usize, m: usize, row: &Vec<Scored>)
    ensures
        nodes_view(final(nodes)@) == linked_from(
            nodes_view(old(nodes)@),
            k@,
            q,
            level,
            m,
            row@,
            0,
        ),
        relinked(nodes_view(old(nodes)@), nodes_view(final(nodes)@)),
{
    let ghost n0 = nodes_view(nodes@);
    let mut j: usize = 0;
    while j < row.len()
        invariant
            j <= row@.len(),
            relinked(n0, nodes_view(nodes@)),
            linked_from(nodes_view(nodes@), k@, q, level, m, row@, j as int) == linked_from(
                n0,
                k@,
                q,
                level,
                m,
                row@,
                0,
            ),
        decreases row@.len() - j,
    {
        let s: usize = row[j].idx;
        connect(nodes, q, s, level);
        connect(nodes, s, q, level);
        prune(nodes, k, s, level, m);
        j += 1;
    }
}

fn weave(nodes: &mut Vec<Node>, k: &Known, p: &IndexParams, q: usize, top: usize, rows: &Vec<
    Vec<Scored>,
>)
    ensures
        nodes_view(final(nodes)@) == woven_from(
            nodes_view(old(nodes)@),
            k@,
            *p,
            q,
            top,
            layers_view(rows@),
            0,
        ),
        relinked(nodes_view(old(nodes)@), nodes_view(final(nodes)@)),
{
    let ghost n0 = nodes_view(nodes@);
    let ghost rv = layers_view(rows@);
    let mut r: usize = 0;
    while r < rows.len() && r <= top
        invariant
            r <= rows@.len(),
            rv == layers_view(rows@),
            relinked(n0, nodes_view(nodes@)),
            woven_from(nodes_view(nodes@), k@, *p, q, top, rv, r as int) == woven_from(
                n0,
                k@,
                *p,
                q,
                top,
                rv,
                0,
            ),
        decreases rows@.len() - r,
    {
        assert(rv[r as int] == rows@[r as int]@);
        let level: usize = top - r;
        link_row(nodes, k, q, level, room_at(p, level), &rows[r]);
        r += 1;
    }
}

// ---- the index ------------------------------------------------------------------------------------

pub open spec fn bare_node(vid: u64, vector: Seq<u32>, level: usize) -> NodeV {
    NodeV {
        vid,
        vector,
        neighbors: Seq::new((level + 1) as nat, |i: int| Seq::empty()),
        removed: false,
        dead: false,
    }
}

/// The graph with a vector more, on the layers up to `level`; or the distances that
/// are missing. A version that is there already changes nothing.
pub open spec fn grown(g: GraphV, vid: u64, vector: Seq<u32>, level: usize, k: Map<u128, u64>) -> Result<
    GraphV,
    Want,
> {
    if g.by_vid.contains_key(vid) {
        Ok(g)
    } else {
        let q = g.nodes.len() as usize;
        let p = g.def.params;
        let base = GraphV {
            nodes: g.nodes.push(bare_node(vid, vector, level)),
            by_vid: g.by_vid.insert(vid, q),
            rng: drawn(g.rng),
            ..g
        };
        match g.entry {
            None => Ok(GraphV { entry: Some(q), max_level: level, ..base }),
            Some(entry) => {
                let top = if level < g.max_level {
                    level
                } else {
                    g.max_level
                };
                match descended(g.nodes, k, q, entry, g.max_level, level) {
                    Err(w) => Err(w),
                    Ok(ep) => match chosen(g.nodes, k, p, q, ep, (top + 1) as nat, Seq::empty()) {
                        Err(w) => Err(w),
                        Ok(rows) => {
                            let w = unlinked_from(g.nodes, k, p, q, top, rows, 0, Seq::empty());
                            if w.len() > 0 {
                                Err(w)
                            } else {
                                Ok(
                                    GraphV {
                                        nodes: woven_from(base.nodes, k, p, q, top, rows, 0),
                                        entry: if level > g.max_level {
                                            Some(q)
                                        } else {
                                            g.entry
                                        },
                                        max_level: if level > g.max_level {
                                            level
                                        } else {
                                            g.max_level
                                        },
                                        ..base
                                    },
                                )
                            }
                        },
                    },
                }
            },
        }
    }
}

/// The nearest vectors: at most `want` versions with their distances, nearest first;
/// or the distances that are missing. The search is `ef` wide, or as wide as the
/// index says, but no narrower than `want`.
pub open spec fn searched(g: GraphV, k: Map<u128, u64>, want: usize, ef: Option<usize>) -> Result<
    Seq<(u64, u64)>,
    Want,
> {
    if g.entry is None || want == 0 {
        Ok(Seq::empty())
    } else {
        let q = g.nodes.len() as usize;
        let given = match ef {
            Some(n) => n,
            None => g.def.params.ef_search,
        };
        let wide = if given < want {
            want
        } else {
            given
        };
        match descended(g.nodes, k, q, g.entry->0, g.max_level, 0) {
            Err(w) => Err(w),
            Ok(ep) => match layer_found(g.nodes, k, q, ep, wide, 0) {
                Err(w) => Err(w),
                Ok(found) => Ok(shown_from(g.nodes, found, 0, Seq::empty(), want as nat)),
            },
        }
    }
}

/// How many vectors are there for new readers.
pub open spec fn live_count(g: GraphV) -> int {
    if g.by_vid.len() >= g.dead_count {
        g.by_vid.len() - g.dead_count
    } else {
        0
    }
}

/// Whether so many vectors of a graph are deleted that it is worth compacting.
pub open spec fn worn(g: GraphV) -> bool {
    g.by_vid.len() >= MAINT_MIN_NODES && g.dead_count * 100 >= g.by_vid.len()
        * MAINT_DEAD_RATIO_PCT
}

/// A graph once a version is noted as deleted.
pub open spec fn marked_dead(g: GraphV, vid: u64) -> GraphV {
    let at = g.by_vid[vid] as int;
    if !g.by_vid.contains_key(vid) || g.nodes[at].dead {
        g
    } else {
        GraphV {
            nodes: g.nodes.update(at, NodeV { dead: true, ..g.nodes[at] }),
            dead_count: (g.dead_count + 1) as usize,
            ..g
        }
    }
}

/// A graph once a version is taken out of it.
pub open spec fn taken_out(g: GraphV, vid: u64) -> GraphV {
    let at = g.by_vid[vid] as int;
    if !g.by_vid.contains_key(vid) {
        g
    } else {
        GraphV {
            nodes: g.nodes.update(at, NodeV { removed: true, ..g.nodes[at] }),
            by_vid: g.by_vid.remove(vid),
            dead_count: if g.nodes[at].dead && g.dead_count > 0 {
                (g.dead_count - 1) as usize
            } else {
                g.dead_count
            },
            ..g
        }
    }
}

/// A mark keeps what holds of every graph.
pub proof fn lemma_marked_ok(g: GraphV, vid: u64)
    requires
        graph_ok(g),
        g.nodes.len() <= usize::MAX,
    ensures
        graph_ok(marked_dead(g, vid)),
        g.by_vid.contains_key(vid) && !g.nodes[g.by_vid[vid] as int].dead ==> marked_dead(
            g,
            vid,
        ).dead_count == g.dead_count + 1,
{
    if g.by_vid.contains_key(vid) && !g.nodes[g.by_vid[vid] as int].dead {
        let at = g.by_vid[vid] as int;
        let nodes = marked_dead(g, vid).nodes;
        lemma_links_stay(g.nodes, nodes);
        lemma_dead_marked(g.nodes, nodes, at, g.nodes.len() as int);
        assert(mapped(nodes, g.by_vid)) by {
            assert forall|i: int| 0 <= i < nodes.len() && !(#[trigger] nodes[i]).removed implies
                g.by_vid.contains_key(nodes[i].vid) && g.by_vid[nodes[i].vid] == i by {
                assert(!g.nodes[i].removed);
            }
        }
    }
}

/// What a growth left, held against what it should.
pub open spec fn grew(
    r: Result<(), Vec<(usize, usize)>>,
    before: GraphV,
    after: GraphV,
    want: Result<GraphV, Want>,
) -> bool {
    match r {
        Ok(_) => want == Ok::<GraphV, Want>(after),
        Err(w) => want == Err::<GraphV, Want>(w@) && after == before,
    }
}

fn empty_layers(level: usize) -> (r: Vec<Vec<usize>>)
    requires
        level <= MAX_LEVEL,
    ensures
        links_view(r@) == Seq::new((level + 1) as nat, |i: int| Seq::<usize>::empty()),
{
    let mut out: Vec<Vec<usize>> = Vec::new();
    let mut i: usize = 0;
    while i <= level
        invariant
            i <= level + 1,
            level <= MAX_LEVEL,
            out@.len() == i,
            forall|j: int| 0 <= j < i ==> (#[trigger] out@[j])@ == Seq::<usize>::empty(),
        decreases level + 1 - i,
    {
        let empty: Vec<usize> = Vec::new();
        assert(empty@ =~= Seq::<usize>::empty());
        out.push(empty);
        i += 1;
    }
    assert(links_view(out@) =~= Seq::new((level + 1) as nat, |i: int| Seq::<usize>::empty()));
    out
}

impl VectorIndex {
    pub fn new(def: IndexDef) -> (r: VectorIndex)
        ensures
            r@ == new_graph(def@),
            graph_ok(r@),
    {
        let r = VectorIndex {
            def,
            nodes: Vec::new(),
            by_vid: HashMap::new(),
            entry: None,
            max_level: 0,
            rng: DRAW_SEED,
            dead_count: 0,
            rebuild_floor: 0,
        };
        assert(r@.nodes =~= Seq::<NodeV>::empty());
        r
    }

    /// How many vectors a search can still give, those deleted for new readers among
    /// them.
    pub fn len(&self) -> (r: usize)
        ensures
            r == self@.by_vid.len(),
    {
        self.by_vid.len()
    }

    pub fn is_empty(&self) -> (r: bool)
        ensures
            r == (self@.by_vid.len() == 0),
    {
        self.by_vid.len() == 0
    }

    /// How many of them are not deleted for new readers.
    pub fn live_len(&self) -> (r: usize)
        ensures
            r == live_count(self@),
    {
        let n: usize = self.by_vid.len();
        if n >= self.dead_count {
            n - self.dead_count
        } else {
            0
        }
    }

    pub fn rebuild_floor(&self) -> (r: u64)
        ensures
            r == self@.rebuild_floor,
    {
        self.rebuild_floor
    }

    /// Whether so many vectors are deleted that the graph is worth compacting.
    pub fn needs_maintenance(&self) -> (r: bool)
        ensures
            r == worn(self@),
    {
        let n: usize = self.by_vid.len();
        n >= MAINT_MIN_NODES && (self.dead_count as u128) * 100 >= (n as u128) * (
        MAINT_DEAD_RATIO_PCT as u128)
    }

    pub fn set_rebuild_floor(&mut self, lsn: u64)
        requires
            graph_ok(old(self)@),
        ensures
            final(self)@ == (GraphV { rebuild_floor: lsn, ..old(self)@ }),
            graph_ok(final(self)@),
    {
        self.rebuild_floor = lsn;
    }

    pub fn metric(&self) -> (r: Metric)
        ensures
            r == self@.def.params.metric,
    {
        self.def.params.metric
    }

    /// The number from which the layer of the next vector is drawn.
    pub fn draw(&self) -> (r: u64)
        ensures
            r == draw_of(drawn(self@.rng)),
    {
        let s: u64 = self.rng.wrapping_add(0x9E37_79B9_7F4A_7C15);
        let a: u64 = (s ^ (s >> 30)).wrapping_mul(0xBF58_476D_1CE4_E5B9);
        let b: u64 = (a ^ (a >> 27)).wrapping_mul(0x94D0_49BB_1331_11EB);
        b ^ (b >> 31)
    }

    /// Take note that a version was deleted. Searches still give it, for older readers.
    pub fn mark_dead(&mut self, vid: u64)
        requires
            graph_ok(old(self)@),
        ensures
            final(self)@ == marked_dead(old(self)@, vid),
            graph_ok(final(self)@),
    {
        let ghost g = self@;
        match self.by_vid.get(&vid) {
            None => {},
            Some(i) => {
                let idx: usize = *i;
                assert(g.by_vid.contains_key(vid) && g.by_vid[vid] == idx);
                assert(g.nodes[idx as int] == self.nodes@[idx as int]@);
                if !self.nodes[idx].dead {
                    self.nodes[idx].dead = true;
                    let ghost nodes = marked_dead(g, vid).nodes;
                    assert(self.nodes@[idx as int]@ == nodes[idx as int]);
                    assert(nodes_view(self.nodes@) =~= nodes);
                    let n: usize = self.nodes.len();
                    proof {
                        lemma_marked_ok(g, vid);
                        lemma_dead_marked(g.nodes, nodes, idx as int, n as int);
                    }
                    self.dead_count = self.dead_count + 1;
                }
            },
        }
    }

    /// Take out a version whose insertion was rolled back. Its node still leads on.
    pub fn remove(&mut self, vid: u64)
        requires
            graph_ok(old(self)@),
        ensures
            final(self)@ == taken_out(old(self)@, vid),
            graph_ok(final(self)@),
    {
        let ghost g = self@;
        match self.by_vid.remove(&vid) {
            None => {
                assert(self@.by_vid =~= g.by_vid);
            },
            Some(idx) => {
                assert(g.by_vid.contains_key(vid) && g.by_vid[vid] == idx);
                assert(g.nodes[idx as int] == self.nodes@[idx as int]@);
                if self.nodes[idx].dead && self.dead_count > 0 {
                    self.dead_count = self.dead_count - 1;
                }
                self.nodes[idx].removed = true;
                let ghost nodes = g.nodes.update(
                    idx as int,
                    NodeV { removed: true, ..g.nodes[idx as int] },
                );
                assert(self.nodes@[idx as int]@ == nodes[idx as int]);
                assert(nodes_view(self.nodes@) =~= nodes);
                proof {
                    lemma_links_stay(g.nodes, nodes);
                    if g.nodes[idx as int].dead {
                        lemma_dead_marked(nodes, g.nodes, idx as int, g.nodes.len() as int);
                    } else {
                        lemma_undead(g.nodes, nodes, idx as int, g.nodes.len() as int);
                    }
                    let m = g.by_vid.remove(vid);
                    assert forall|i: int|
                        0 <= i < nodes.len() && !(#[trigger] nodes[i]).removed implies m.contains_key(
                        nodes[i].vid,
                    ) && m[nodes[i].vid] == i by {
                        assert(!g.nodes[i].removed);
                    }
                    assert(mapped(nodes, m));
                }
            },
        }
    }

    /// Add a vector on the layers up to `level`. Where distances are missing nothing
    /// changes, and they are named.
    pub fn insert(&mut self, vid: u64, vector: Vec<u32>, level: usize, k: &Known) -> (r: Result<
        (),
        Vec<(usize, usize)>,
    >)
        requires
            graph_ok(old(self)@),
            level <= MAX_LEVEL,
        ensures
            grew(r, old(self)@, final(self)@, grown(old(self)@, vid, vector@, level, k@)),
            graph_ok(final(self)@),
    {
        let ghost g = self@;
        if self.by_vid.contains_key(&vid) {
            return Ok(());
        }
        let q: usize = self.nodes.len();
        let node = Node {
            vid,
            vector,
            neighbors: empty_layers(level),
            removed: false,
            dead: false,
        };
        let ghost nv = bare_node(vid, vector@, level);
        assert(node@.neighbors =~= nv.neighbors);
        assert(node@ == nv);
        match self.entry {
            None => {
                self.nodes.push(node);
                self.entry = Some(q);
                self.max_level = level;
            },
            Some(entry) => {
                let top: usize = if level < self.max_level {
                    level
                } else {
                    self.max_level
                };
                let ep: usize = descend(&self.nodes, k, q, entry, self.max_level, level)?;
                let rows = choose_layers(&self.nodes, k, &self.def.params, q, ep, top + 1)?;
                let w = find_unlinked(&self.nodes, k, &self.def.params, q, top, &rows);
                if w.len() > 0 {
                    return Err(w);
                }
                self.nodes.push(node);
                assert(nodes_view(self.nodes@) =~= g.nodes.push(nv));
                weave(&mut self.nodes, k, &self.def.params, q, top, &rows);
                if level > self.max_level {
                    self.max_level = level;
                    self.entry = Some(q);
                }
            },
        }
        self.rng = self.rng.wrapping_add(0x9E37_79B9_7F4A_7C15);
        let _old = self.by_vid.insert(vid, q);
        assert(g.nodes.len() < usize::MAX) by {
            assert(self.nodes@.len() == g.nodes.len() + 1);
            assert(self.nodes.len() == self.nodes@.len());
        }
        proof {
            law_growth_keeps_whole(g, vid, vector@, level, k@);
            let base = g.nodes.push(nv);
            if g.entry is None {
                assert(nodes_view(self.nodes@) =~= base);
            }
            lemma_dead_nodes(g.nodes, base, g.nodes.len() as int);
            assert(dead_nodes(base, base.len() as int) == dead_nodes(
                base,
                g.nodes.len() as int,
            ));
            lemma_dead_nodes(base, self@.nodes, base.len() as int);
            let nodes = self@.nodes;
            let m = g.by_vid.insert(vid, q);
            assert forall|i: int| 0 <= i < nodes.len() && !(#[trigger] nodes[i]).removed implies
                m.contains_key(nodes[i].vid) && m[nodes[i].vid] == i by {
                assert(nodes[i].vid == base[i].vid && nodes[i].removed == base[i].removed);
                if i < q {
                    assert(!g.nodes[i].removed);
                }
            }
            assert forall|v: u64| #[trigger] m.contains_key(v) implies m[v] < nodes.len()
                && nodes[m[v] as int].vid == v && !nodes[m[v] as int].removed by {
                if v == vid {
                    assert(nodes[q as int].vid == base[q as int].vid);
                } else {
                    assert(g.by_vid.contains_key(v));
                    assert(nodes[m[v] as int].vid == base[m[v] as int].vid);
                }
            }
            assert(mapped(nodes, m));
        }
        Ok(())
    }

    /// The nearest vectors to the one that `k` has the distances of. `ef` widens or
    /// narrows the search.
    pub fn search(&self, k: &Known, want: usize, ef: Option<usize>) -> (r: Result<
        Vec<(u64, u64)>,
        Vec<(usize, usize)>,
    >)
        ensures
            searched(self@, k@, want, ef) == (match r {
                Ok(v) => Ok::<Seq<(u64, u64)>, Want>(v@),
                Err(w) => Err(w@),
            }),
    {
        let ghost g = self@;
        let entry: usize = match self.entry {
            None => {
                let none: Vec<(u64, u64)> = Vec::new();
                assert(none@ =~= Seq::<(u64, u64)>::empty());
                return Ok(none);
            },
            Some(e) => e,
        };
        let mut out: Vec<(u64, u64)> = Vec::new();
        assert(out@ =~= Seq::<(u64, u64)>::empty());
        if want == 0 {
            return Ok(out);
        }
        let q: usize = self.nodes.len();
        let given: usize = match ef {
            Some(n) => n,
            None => self.def.params.ef_search,
        };
        let wide: usize = if given < want {
            want
        } else {
            given
        };
        let ep: usize = descend(&self.nodes, k, q, entry, self.max_level, 0)?;
        let found = search_layer(&self.nodes, k, q, ep, wide, 0)?;
        let ghost nv = nodes_view(self.nodes@);
        let mut i: usize = 0;
        while i < found.len() && out.len() < want
            invariant
                i <= found@.len(),
                nv == nodes_view(self.nodes@),
                shown_from(nv, found@, i as int, out@, want as nat) == shown_from(
                    nv,
                    found@,
                    0,
                    Seq::empty(),
                    want as nat,
                ),
            decreases found@.len() - i,
        {
            let s = found[i];
            if s.idx < self.nodes.len() {
                assert(nv[s.idx as int] == self.nodes@[s.idx as int]@);
                if !self.nodes[s.idx].removed {
                    out.push((self.nodes[s.idx].vid, s.dist));
                }
            }
            i += 1;
        }
        Ok(out)
    }
}

// ---- laws -----------------------------------------------------------------------------------------

/// Whether a version belongs to a node that is not gone.
pub open spec fn present(nodes: Seq<NodeV>, vid: u64) -> bool {
    exists|n: int| 0 <= n < nodes.len() && !(#[trigger] nodes[n]).removed && nodes[n].vid == vid
}

pub open spec fn all_present(nodes: Seq<NodeV>, v: Seq<(u64, u64)>) -> bool {
    forall|j: int| 0 <= j < v.len() ==> present(nodes, (#[trigger] v[j]).0)
}

proof fn lemma_shown(
    nodes: Seq<NodeV>,
    found: Seq<Scored>,
    i: int,
    acc: Seq<(u64, u64)>,
    want: nat,
)
    requires
        acc.len() <= want,
        all_present(nodes, acc),
    ensures
        shown_from(nodes, found, i, acc, want).len() <= want,
        all_present(nodes, shown_from(nodes, found, i, acc, want)),
    decreases found.len() - i,
{
    if !(i < 0 || i >= found.len() || acc.len() >= want) {
        if found[i].idx >= nodes.len() || nodes[found[i].idx as int].removed {
            lemma_shown(nodes, found, i + 1, acc, want);
        } else {
            let at = found[i].idx as int;
            assert(present(nodes, nodes[at].vid));
            lemma_shown(
                nodes,
                found,
                i + 1,
                acc.push((nodes[at].vid, found[i].dist)),
                want,
            );
        }
    }
}

/// A search gives no more than it was asked for, and never a version whose insertion
/// was rolled back.
pub proof fn law_search_is_bounded(g: GraphV, k: Map<u128, u64>, want: usize, ef: Option<usize>)
    requires
        searched(g, k, want, ef) is Ok,
    ensures
        searched(g, k, want, ef)->Ok_0.len() <= want,
        all_present(g.nodes, searched(g, k, want, ef)->Ok_0),
{
    if !(g.entry is None || want == 0) {
        let q = g.nodes.len() as usize;
        let given = match ef {
            Some(n) => n,
            None => g.def.params.ef_search,
        };
        let wide = if given < want {
            want
        } else {
            given
        };
        let ep = descended(g.nodes, k, q, g.entry->0, g.max_level, 0)->Ok_0;
        let found = layer_found(g.nodes, k, q, ep, wide, 0)->Ok_0;
        lemma_shown(g.nodes, found, 0, Seq::empty(), want as nat);
    }
}

/// A version that is there is not added again.
pub proof fn law_insertion_is_idempotent(
    g: GraphV,
    vid: u64,
    a: Seq<u32>,
    b: Seq<u32>,
    l: usize,
    m: usize,
    k: Map<u128, u64>,
    j: Map<u128, u64>,
)
    requires
        grown(g, vid, a, l, k) is Ok,
    ensures
        grown(grown(g, vid, a, l, k)->Ok_0, vid, b, m, j) == Ok::<GraphV, Want>(
            grown(g, vid, a, l, k)->Ok_0,
        ),
{
    assert(grown(g, vid, a, l, k)->Ok_0.by_vid.contains_key(vid));
}

/// Sorted, nearest first.
pub open spec fn sorted(v: Seq<Scored>) -> bool {
    forall|i: int, j: int| 0 <= i < j < v.len() ==> !nearer(#[trigger] v[j], #[trigger] v[i])
}

pub proof fn lemma_place(v: Seq<Scored>, s: Scored, i: int)
    requires
        0 <= i <= v.len(),
        forall|j: int| 0 <= j < i ==> !nearer(s, #[trigger] v[j]),
    ensures
        i <= place(v, s, i) <= v.len(),
        forall|j: int| 0 <= j < place(v, s, i) ==> !nearer(s, #[trigger] v[j]),
        place(v, s, i) < v.len() ==> nearer(s, v[place(v, s, i)]),
    decreases v.len() - i,
{
    if i < v.len() && !nearer(s, v[i]) {
        lemma_place(v, s, i + 1);
    }
}

proof fn lemma_put(v: Seq<Scored>, s: Scored)
    requires
        sorted(v),
    ensures
        sorted(put(v, s)),
        put(v, s).len() == v.len() + 1,
{
    lemma_place(v, s, 0);
    let p = place(v, s, 0);
    let w = put(v, s);
    assert forall|i: int, j: int| 0 <= i < j < w.len() implies !nearer(
        #[trigger] w[j],
        #[trigger] w[i],
    ) by {
        if i < p && j == p {
            assert(!nearer(s, v[i]));
        } else if i == p && j > p {
            assert(w[j] == v[j - 1]);
            assert(nearer(s, v[p]));
            if j - 1 > p {
                assert(!nearer(v[j - 1], v[p]));
            }
        } else {
            let a = if i < p {
                i
            } else {
                i - 1
            };
            let b = if j < p {
                j
            } else {
                j - 1
            };
            assert(w[i] == v[a]);
            assert(w[j] == v[b]);
            assert(!nearer(v[b], v[a]));
        }
    }
}

proof fn lemma_seen(st: LayerV, k: Map<u128, u64>, q: usize, ef: usize, nbs: Seq<usize>, j: int)
    requires
        sorted(st.cand),
        sorted(st.found),
    ensures
        sorted(seen_from(st, k, q, ef, nbs, j).cand),
        sorted(seen_from(st, k, q, ef, nbs, j).found),
    decreases nbs.len() - j,
{
    if 0 <= j < nbs.len() {
        let nb = nbs[j];
        let t = seen(st, k, q, ef, nb);
        match known(k, q, nb) {
            Some(dist) => {
                let s = Scored { dist, idx: nb };
                lemma_put(st.cand, s);
                lemma_put(st.found, s);
                let f = put(st.found, s);
                assert forall|a: int, b: int|
                    0 <= a < b < trimmed(f, ef).len() implies !nearer(
                    #[trigger] trimmed(f, ef)[b],
                    #[trigger] trimmed(f, ef)[a],
                ) by {
                    assert(!nearer(f[b], f[a]));
                }
            },
            None => {},
        }
        lemma_seen(t, k, q, ef, nbs, j + 1);
    }
}

proof fn lemma_walk(
    nodes: Seq<NodeV>,
    k: Map<u128, u64>,
    q: usize,
    ef: usize,
    level: usize,
    st: LayerV,
    steps: nat,
)
    requires
        sorted(st.cand),
        sorted(st.found),
    ensures
        walk(nodes, k, q, ef, level, st, steps) matches Ok(v) ==> sorted(v),
    decreases steps,
{
    if steps > 0 && st.cand.len() > 0 {
        let nbs = links(nodes, st.cand[0].idx, level);
        let rest = st.cand.drop_first();
        assert forall|a: int, b: int| 0 <= a < b < rest.len() implies !nearer(
            #[trigger] rest[b],
            #[trigger] rest[a],
        ) by {
            assert(!nearer(st.cand[b + 1], st.cand[a + 1]));
        }
        let t = LayerV { cand: rest, ..st };
        lemma_seen(t, k, q, ef, nbs, 0);
        lemma_walk(
            nodes,
            k,
            q,
            ef,
            level,
            seen_from(t, k, q, ef, nbs, 0),
            (steps - 1) as nat,
        );
    }
}

/// A layer gives what it finds nearest first.
pub proof fn law_layer_is_sorted(
    nodes: Seq<NodeV>,
    k: Map<u128, u64>,
    q: usize,
    entry: usize,
    ef: usize,
    level: usize,
)
    ensures
        layer_found(nodes, k, q, entry, ef, level) matches Ok(v) ==> sorted(v),
{
    match known(k, q, entry) {
        None => {},
        Some(dist) => {
            lemma_walk(nodes, k, q, ef, level, start(nodes, entry, dist), nodes.len());
        },
    }
}

/// How many of the first `n` nodes a search has not seen.
pub open spec fn unseen(v: Seq<bool>, n: int) -> int
    decreases n,
{
    if n <= 0 || n > v.len() {
        0
    } else if v[n - 1] {
        unseen(v, n - 1)
    } else {
        unseen(v, n - 1) + 1
    }
}

pub proof fn lemma_unseen(v: Seq<bool>, at: int, n: int)
    requires
        0 <= n <= v.len(),
        0 <= at < v.len(),
        !v[at],
    ensures
        unseen(v.update(at, true), n) == unseen(v, n) - (if at < n {
            1int
        } else {
            0
        }),
        unseen(v, n) >= 0,
    decreases n,
{
    if n > 0 {
        lemma_unseen(v, at, n - 1);
    }
}

pub proof fn lemma_unseen_flags(m: nat, at: usize, n: int)
    requires
        0 <= n <= m,
    ensures
        unseen(flags(m, at), n) == n - (if at < n {
            1int
        } else {
            0
        }),
    decreases n,
{
    if n > 0 {
        lemma_unseen_flags(m, at, n - 1);
    }
}

/// What a search has still to do.
pub open spec fn left(st: LayerV) -> int {
    st.cand.len() + unseen(st.visited, st.visited.len() as int)
}

pub proof fn lemma_seen_left(st: LayerV, k: Map<u128, u64>, q: usize, ef: usize, nbs: Seq<usize>, j: int)
    ensures
        left(seen_from(st, k, q, ef, nbs, j)) <= left(st),
        seen_from(st, k, q, ef, nbs, j).visited.len() == st.visited.len(),
    decreases nbs.len() - j,
{
    if 0 <= j < nbs.len() {
        let nb = nbs[j];
        let t = seen(st, k, q, ef, nb);
        if nb < st.visited.len() && !st.visited[nb as int] {
            lemma_unseen(st.visited, nb as int, st.visited.len() as int);
            match known(k, q, nb) {
                Some(dist) => {
                    let s = Scored { dist, idx: nb };
                    lemma_place(st.cand, s, 0);
                },
                None => {},
            }
        }
        lemma_seen_left(t, k, q, ef, nbs, j + 1);
    }
}

proof fn lemma_enough(
    nodes: Seq<NodeV>,
    k: Map<u128, u64>,
    q: usize,
    ef: usize,
    level: usize,
    st: LayerV,
    steps: nat,
    more: nat,
)
    requires
        left(st) <= steps <= more,
        unseen(st.visited, st.visited.len() as int) >= 0,
    ensures
        walk(nodes, k, q, ef, level, st, more) == walk(nodes, k, q, ef, level, st, steps),
    decreases steps,
{
    if steps > 0 && st.cand.len() > 0 {
        let nbs = links(nodes, st.cand[0].idx, level);
        let t = LayerV { cand: st.cand.drop_first(), ..st };
        let u = seen_from(t, k, q, ef, nbs, 0);
        lemma_seen_left(t, k, q, ef, nbs, 0);
        lemma_unseen_natural(u.visited, u.visited.len() as int);
        lemma_enough(nodes, k, q, ef, level, u, (steps - 1) as nat, (more - 1) as nat);
    }
}

pub proof fn lemma_unseen_natural(v: Seq<bool>, n: int)
    ensures
        unseen(v, n) >= 0,
    decreases n,
{
    if n > 0 && n <= v.len() {
        lemma_unseen_natural(v, n - 1);
    }
}

/// A search of a layer ends for want of nodes, never for want of steps: allowing it
/// more changes nothing.
pub proof fn law_steps_suffice(
    nodes: Seq<NodeV>,
    k: Map<u128, u64>,
    q: usize,
    entry: usize,
    ef: usize,
    level: usize,
    dist: u64,
    more: nat,
)
    requires
        entry < nodes.len() <= more,
        known(k, q, entry) == Some(dist),
    ensures
        layer_found(nodes, k, q, entry, ef, level) == walk(
            nodes,
            k,
            q,
            ef,
            level,
            start(nodes, entry, dist),
            more,
        ),
{
    lemma_unseen_flags(nodes.len(), entry, nodes.len() as int);
    lemma_enough(
        nodes,
        k,
        q,
        ef,
        level,
        start(nodes, entry, dist),
        nodes.len(),
        more,
    );
}

} // verus!
