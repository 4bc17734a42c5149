//! What pages promise: each fits, and together they hold the graph.
use vstd::prelude::*;
use vstd::utf8::encode_utf8;
use crate::codec::{
    get_bytes, get_text, get_u32, get_u64, get_u8, le32, le64, lemma_got_text, lemma_got_u32,
    lemma_got_u64, lemma_got_u8, text_bytes, text_fits,
};
use crate::error::ErrorV;
use crate::graph::{graph_ok, live_count, mapped, searched, DRAW_SEED, GraphV, NodeV};
use crate::pages::{
    entry_word, flushed, frames_of, get_entry, get_header, get_header_tail, get_levels, get_node,
    get_nodes, get_numbers, get_ordinals, graph_of, header_bytes, header_for, header_of,
    header_tail, levels_from, magic, map_of, mark_byte, node_bytes, numbers_from, ordinals_from,
    packed_from, page_nodes, pages_nodes, versions_ok, HeaderV, PAGE_CAP,
};
use crate::vector::law_metric_round_trip;

verus! {

// ---- pages fit ------------------------------------------------------------------------------------

spec fn all_fit(v: Seq<Seq<u8>>) -> bool {
    forall|i: int| 0 <= i < v.len() ==> (#[trigger] v[i]).len() <= PAGE_CAP
}

proof fn lemma_packed_fit(
    nodes: Seq<NodeV>,
    dim: nat,
    i: int,
    page: Seq<u8>,
    count: nat,
    body: Seq<Seq<u8>>,
)
    requires
        all_fit(body),
        page.len() + 4 <= PAGE_CAP,
    ensures
        packed_from(nodes, dim, i, page, count, body) matches Some(v) ==> all_fit(v),
    decreases nodes.len() - i,
{
    lemma_got_u32(count as u32, Seq::empty());
    assert(all_fit(flushed(page, count, body)));
    if 0 <= i < nodes.len() && nodes[i].vector.len() == dim {
        let rec = node_bytes(nodes[i]);
        if rec.len() + 4 <= PAGE_CAP {
            if 4 + page.len() + rec.len() > PAGE_CAP {
                lemma_packed_fit(nodes, dim, i + 1, rec, 1, flushed(page, count, body));
            } else {
                lemma_packed_fit(nodes, dim, i + 1, page + rec, count + 1, body);
            }
        }
    }
}

/// No page is larger than a page may be.
pub proof fn law_pages_fit(g: GraphV, lsn: u64)
    requires
        frames_of(g, lsn) is Some,
    ensures
        forall|i: int|
            0 <= i < frames_of(g, lsn)->0.len() ==> (#[trigger] frames_of(g, lsn)->0[i]).len()
                <= PAGE_CAP,
{
    lemma_packed_fit(g.nodes, g.nodes[0].vector.len(), 0, Seq::empty(), 0, Seq::empty());
    let body = packed_from(
        g.nodes,
        g.nodes[0].vector.len(),
        0,
        Seq::empty(),
        0,
        Seq::empty(),
    )->0;
    let all = frames_of(g, lsn)->0;
    assert forall|i: int| 0 <= i < all.len() implies (#[trigger] all[i]).len() <= PAGE_CAP by {
        if i > 0 {
            assert(all[i] == body[i - 1]);
        }
    }
}

// ---- nodes read back ------------------------------------------------------------------------------

proof fn lemma_numbers(v: Seq<u32>, i: int, rest: Seq<u8>)
    requires
        0 <= i <= v.len(),
    ensures
        get_numbers(numbers_from(v, i) + rest, (v.len() - i) as nat, v.take(i)) == Ok::<
            (Seq<u32>, Seq<u8>),
            ErrorV,
        >((v, rest)),
        numbers_from(v, i).len() == 4 * (v.len() - i),
    decreases v.len() - i,
{
    if i < v.len() {
        let tail = numbers_from(v, i + 1);
        assert(numbers_from(v, i) + rest =~= le32(v[i]) + (tail + rest));
        lemma_got_u32(v[i], tail + rest);
        assert(v.take(i).push(v[i]) =~= v.take(i + 1));
        lemma_numbers(v, i + 1, rest);
    } else {
        assert(numbers_from(v, i) + rest =~= rest);
        assert(v.take(i) =~= v);
    }
}

proof fn lemma_ordinals(v: Seq<usize>, i: int, rest: Seq<u8>)
    requires
        0 <= i <= v.len(),
        forall|j: int| 0 <= j < v.len() ==> (#[trigger] v[j]) <= u32::MAX,
    ensures
        get_ordinals(ordinals_from(v, i) + rest, (v.len() - i) as nat, v.take(i)) == Ok::<
            (Seq<usize>, Seq<u8>),
            ErrorV,
        >((v, rest)),
    decreases v.len() - i,
{
    if i < v.len() {
        let tail = ordinals_from(v, i + 1);
        assert(ordinals_from(v, i) + rest =~= le32(v[i] as u32) + (tail + rest));
        lemma_got_u32(v[i] as u32, tail + rest);
        assert(v[i] as u32 as usize == v[i]);
        assert(v.take(i).push(v[i]) =~= v.take(i + 1));
        lemma_ordinals(v, i + 1, rest);
    } else {
        assert(ordinals_from(v, i) + rest =~= rest);
        assert(v.take(i) =~= v);
    }
}

proof fn lemma_ordinals_len(v: Seq<usize>, i: int)
    requires
        0 <= i <= v.len(),
    ensures
        ordinals_from(v, i).len() == 4 * (v.len() - i),
    decreases v.len() - i,
{
    if i < v.len() {
        lemma_got_u32(v[i] as u32, Seq::empty());
        lemma_ordinals_len(v, i + 1);
    }
}

spec fn short(v: Seq<Seq<usize>>) -> bool {
    &&& v.len() <= u32::MAX
    &&& forall|l: int| 0 <= l < v.len() ==> (#[trigger] v[l]).len() <= u32::MAX
}

spec fn low(v: Seq<Seq<usize>>) -> bool {
    forall|l: int, j: int|
        #![trigger v[l][j]]
        0 <= l < v.len() && 0 <= j < v[l].len() ==> v[l][j] <= u32::MAX
}

proof fn lemma_levels(v: Seq<Seq<usize>>, i: int, rest: Seq<u8>)
    requires
        0 <= i <= v.len(),
        short(v),
        low(v),
    ensures
        get_levels(levels_from(v, i) + rest, (v.len() - i) as nat, v.take(i)) == Ok::<
            (Seq<Seq<usize>>, Seq<u8>),
            ErrorV,
        >((v, rest)),
    decreases v.len() - i,
{
    if i < v.len() {
        let tail = levels_from(v, i + 1);
        let flat = ordinals_from(v[i], 0);
        assert(levels_from(v, i) + rest =~= le32(v[i].len() as u32) + (flat + (tail + rest)));
        lemma_got_u32(v[i].len() as u32, flat + (tail + rest));
        assert forall|j: int| 0 <= j < v[i].len() implies (#[trigger] v[i][j]) <= u32::MAX by {
            assert(v[i][j] <= u32::MAX);
        }
        lemma_ordinals(v[i], 0, tail + rest);
        assert(v[i].take(0) =~= Seq::<usize>::empty());
        assert(v.take(i).push(v[i]) =~= v.take(i + 1));
        lemma_levels(v, i + 1, rest);
    } else {
        assert(levels_from(v, i) + rest =~= rest);
        assert(v.take(i) =~= v);
    }
}

/// A node that fits a page has few enough layers and neighbours to be counted.
proof fn lemma_levels_len(v: Seq<Seq<usize>>, i: int)
    requires
        0 <= i <= v.len(),
    ensures
        levels_from(v, i).len() >= 4 * (v.len() - i),
        forall|l: int|
            i <= l < v.len() ==> levels_from(v, i).len() >= 4 * (#[trigger] v[l]).len(),
    decreases v.len() - i,
{
    if i < v.len() {
        lemma_got_u32(v[i].len() as u32, Seq::empty());
        lemma_ordinals_len(v[i], 0);
        lemma_levels_len(v, i + 1);
    }
}

proof fn lemma_node(n: NodeV, rest: Seq<u8>)
    requires
        node_bytes(n).len() + 4 <= PAGE_CAP,
        low(n.neighbors),
    ensures
        get_node(node_bytes(n) + rest, n.vector.len()) == Ok::<(NodeV, Seq<u8>), ErrorV>((n, rest)),
{
    let m = mark_byte(n);
    let k = n.neighbors.len() as u32;
    let nums = numbers_from(n.vector, 0);
    let levs = levels_from(n.neighbors, 0);
    let r4 = levs + rest;
    let r3 = nums + r4;
    let r2 = le32(k) + r3;
    let r1 = seq![m] + r2;
    assert(node_bytes(n) + rest =~= le64(n.vid) + r1);
    lemma_got_u64(n.vid, r1);
    lemma_got_u8(m, r2);
    lemma_got_u32(k, r3);
    lemma_levels_len(n.neighbors, 0);
    assert(node_bytes(n).len() >= levs.len());
    assert(short(n.neighbors)) by {
        assert forall|l: int| 0 <= l < n.neighbors.len() implies (#[trigger] n.neighbors[l]).len()
            <= u32::MAX by {
            assert(levs.len() >= 4 * n.neighbors[l].len());
        }
    }
    lemma_numbers(n.vector, 0, r4);
    assert(n.vector.take(0) =~= Seq::<u32>::empty());
    lemma_levels(n.neighbors, 0, rest);
    assert(n.neighbors.take(0) =~= Seq::<Seq<usize>>::empty());
}

// ---- pages read back ------------------------------------------------------------------------------

/// The nodes from `a` to `b`, one behind the other.
spec fn run(nodes: Seq<NodeV>, a: int, b: int) -> Seq<u8>
    decreases b - a,
{
    if a >= b {
        Seq::empty()
    } else {
        node_bytes(nodes[a]) + run(nodes, a + 1, b)
    }
}

proof fn lemma_run_snoc(nodes: Seq<NodeV>, a: int, b: int)
    requires
        a <= b,
    ensures
        run(nodes, a, b + 1) == run(nodes, a, b) + node_bytes(nodes[b]),
    decreases b - a,
{
    if a < b {
        lemma_run_snoc(nodes, a + 1, b);
        assert(node_bytes(nodes[a]) + (run(nodes, a + 1, b) + node_bytes(nodes[b])) =~= run(
            nodes,
            a,
            b,
        ) + node_bytes(nodes[b]));
    } else {
        assert(run(nodes, b + 1, b + 1) =~= Seq::<u8>::empty());
        assert(node_bytes(nodes[b]) + Seq::<u8>::empty() =~= Seq::<u8>::empty() + node_bytes(
            nodes[b],
        ));
    }
}

/// Nodes that a page can hold.
spec fn sound(nodes: Seq<NodeV>, dim: nat, n: int) -> bool {
    forall|i: int|
        0 <= i < n ==> {
            &&& (#[trigger] nodes[i]).vector.len() == dim
            &&& node_bytes(nodes[i]).len() + 4 <= PAGE_CAP
            &&& low(nodes[i].neighbors)
        }
}

proof fn lemma_run(nodes: Seq<NodeV>, dim: nat, a: int, b: int, n: int)
    requires
        0 <= a <= b <= n <= nodes.len(),
        sound(nodes, dim, n),
    ensures
        get_nodes(run(nodes, a, b), (b - a) as nat, dim, nodes.take(a)) == Ok::<
            (Seq<NodeV>, Seq<u8>),
            ErrorV,
        >((nodes.take(b), Seq::empty())),
    decreases b - a,
{
    if a < b {
        assert(nodes[a].vector.len() == dim);
        lemma_node(nodes[a], run(nodes, a + 1, b));
        assert(nodes.take(a).push(nodes[a]) =~= nodes.take(a + 1));
        lemma_run(nodes, dim, a + 1, b, n);
    }
}

proof fn lemma_pages_snoc(v: Seq<Seq<u8>>, p: Seq<u8>, i: int, dim: nat, acc: Seq<NodeV>)
    requires
        0 <= i <= v.len(),
    ensures
        pages_nodes(v.push(p), i, dim, acc) == (match pages_nodes(v, i, dim, acc) {
            None => None,
            Some(a) => page_nodes(p, dim, a),
        }),
    decreases v.len() - i,
{
    let w = v.push(p);
    if i < v.len() {
        assert(w[i] == v[i]);
        match page_nodes(v[i], dim, acc) {
            None => {},
            Some(a) => {
                lemma_pages_snoc(v, p, i + 1, dim, a);
            },
        }
    } else {
        assert(w[i] == p);
        match page_nodes(p, dim, acc) {
            None => {},
            Some(a) => {
                assert(pages_nodes(w, i + 1, dim, a) == Some(a));
            },
        }
    }
}

proof fn lemma_flushed(nodes: Seq<NodeV>, dim: nat, i: int, count: nat, body: Seq<Seq<u8>>)
    requires
        0 <= count <= i <= nodes.len(),
        count <= u32::MAX,
        sound(nodes, dim, i),
        pages_nodes(body, 0, dim, Seq::empty()) == Some(nodes.take(i - count)),
    ensures
        pages_nodes(flushed(run(nodes, i - count, i), count, body), 0, dim, Seq::empty()) == Some(
            nodes.take(i),
        ),
{
    if count > 0 {
        let page = run(nodes, i - count, i);
        lemma_pages_snoc(body, le32(count as u32) + page, 0, dim, Seq::empty());
        lemma_got_u32(count as u32, page);
        lemma_run(nodes, dim, i - count, i, i);
    }
}

proof fn lemma_run_len(nodes: Seq<NodeV>, a: int, b: int)
    requires
        a <= b,
    ensures
        run(nodes, a, b).len() >= 13 * (b - a),
    decreases b - a,
{
    if a < b {
        lemma_got_u64(nodes[a].vid, Seq::empty());
        lemma_got_u32(nodes[a].neighbors.len() as u32, Seq::empty());
        lemma_run_len(nodes, a + 1, b);
    }
}

proof fn lemma_packed(
    nodes: Seq<NodeV>,
    dim: nat,
    i: int,
    page: Seq<u8>,
    count: nat,
    body: Seq<Seq<u8>>,
)
    requires
        0 <= count <= i <= nodes.len(),
        page == run(nodes, i - count, i),
        page.len() <= PAGE_CAP,
        sound(nodes, dim, i),
        forall|k: int| 0 <= k < nodes.len() ==> low((#[trigger] nodes[k]).neighbors),
        pages_nodes(body, 0, dim, Seq::empty()) == Some(nodes.take(i - count)),
    ensures
        packed_from(nodes, dim, i, page, count, body) matches Some(v) ==> pages_nodes(
            v,
            0,
            dim,
            Seq::empty(),
        ) == Some(nodes),
    decreases nodes.len() - i,
{
    lemma_run_len(nodes, i - count, i);
    lemma_flushed(nodes, dim, i, count, body);
    if i < nodes.len() {
        let rec = node_bytes(nodes[i]);
        if nodes[i].vector.len() == dim && rec.len() + 4 <= PAGE_CAP {
            assert(low(nodes[i].neighbors));
            assert(sound(nodes, dim, i + 1));
            if 4 + page.len() + rec.len() > PAGE_CAP {
                assert(run(nodes, i + 1, i + 1) =~= Seq::<u8>::empty());
                assert(rec + Seq::<u8>::empty() =~= rec);
                assert(run(nodes, i, i + 1) == rec);
                lemma_packed(nodes, dim, i + 1, rec, 1, flushed(page, count, body));
            } else {
                lemma_run_snoc(nodes, i - count, i);
                lemma_packed(nodes, dim, i + 1, page + rec, count + 1, body);
            }
        }
    } else {
        assert(nodes.take(i) =~= nodes);
    }
}

// ---- headers read back ----------------------------------------------------------------------------

spec fn header_fits(h: HeaderV) -> bool {
    &&& h.dim <= u32::MAX
    &&& h.max_level <= u32::MAX
    &&& h.num_body_pages <= u32::MAX
    &&& text_fits(h.name)
    &&& entry_word(h.entry) == u64::MAX ==> h.entry is None
}

proof fn lemma_tail(h: HeaderV)
    requires
        header_fits(h),
    ensures
        get_header_tail(header_tail(h)) == Ok::<
            ((u64, u64, u64, u32, Seq<char>), Seq<u8>),
            ErrorV,
        >(
            (
                (
                    h.reflected_lsn,
                    h.dead_count as u64,
                    h.rebuild_floor,
                    h.num_body_pages as u32,
                    h.name,
                ),
                Seq::empty(),
            ),
        ),
{
    let r4 = text_bytes(h.name);
    let r3 = le32(h.num_body_pages as u32) + r4;
    let r2 = le64(h.rebuild_floor) + r3;
    let r1 = le64(h.dead_count as u64) + r2;
    lemma_got_u64(h.reflected_lsn, r1);
    lemma_got_u64(h.dead_count as u64, r2);
    lemma_got_u64(h.rebuild_floor, r3);
    lemma_got_u32(h.num_body_pages as u32, r4);
    assert(r4 + Seq::<u8>::empty() =~= r4);
    lemma_got_text(h.name, Seq::empty());
}

proof fn lemma_header(h: HeaderV)
    requires
        header_fits(h),
    ensures
        header_of(header_bytes(h)) == Some(h),
        get_header(header_bytes(h).subrange(8, header_bytes(h).len() as int)) == Ok::<
            (HeaderV, Seq<u8>),
            ErrorV,
        >((h, Seq::empty())),
{
    let b = header_bytes(h);
    let r5 = header_tail(h);
    let r4 = le32(h.max_level as u32) + r5;
    let r3 = le64(entry_word(h.entry)) + r4;
    let r2 = le64(h.node_count as u64) + r3;
    let r1 = le32(h.dim as u32) + r2;
    let r0 = seq![h.metric.spec_tag()] + r1;
    assert(b.subrange(0, 8) =~= magic());
    assert(b.subrange(8, b.len() as int) =~= r0);
    lemma_got_u8(h.metric.spec_tag(), r1);
    lemma_got_u32(h.dim as u32, r2);
    lemma_got_u64(h.node_count as u64, r3);
    lemma_got_u64(entry_word(h.entry), r4);
    lemma_got_u32(h.max_level as u32, r5);
    lemma_tail(h);
    law_metric_round_trip(h.metric);
    assert(get_entry(r3) == Ok::<(Option<usize>, Seq<u8>), ErrorV>((h.entry, r4)));
    assert(get_header(r0) == Ok::<(HeaderV, Seq<u8>), ErrorV>((h, Seq::empty())));
}

// ---- graphs read back -----------------------------------------------------------------------------

proof fn lemma_shifted(v: Seq<Seq<u8>>, head: Seq<u8>, i: int, dim: nat, acc: Seq<NodeV>)
    requires
        0 <= i <= v.len(),
    ensures
        pages_nodes(seq![head] + v, i + 1, dim, acc) == pages_nodes(v, i, dim, acc),
    decreases v.len() - i,
{
    let w = seq![head] + v;
    if i < v.len() {
        assert(w[i + 1] == v[i]);
        match page_nodes(v[i], dim, acc) {
            None => {},
            Some(a) => {
                lemma_shifted(v, head, i + 1, dim, a);
            },
        }
    }
}

proof fn lemma_map(nodes: Seq<NodeV>, m: Map<u64, usize>, n: int)
    requires
        mapped(nodes, m),
        0 <= n <= nodes.len() <= usize::MAX,
    ensures
        forall|v: u64| #[trigger]
            map_of(nodes, n).contains_key(v) <==> m.contains_key(v) && m[v] < n,
        forall|v: u64| #[trigger] map_of(nodes, n).contains_key(v) ==> map_of(nodes, n)[v] == m[v],
    decreases n,
{
    if n > 0 {
        lemma_map(nodes, m, n - 1);
        let p = map_of(nodes, n);
        let o = map_of(nodes, n - 1);
        let x = nodes[n - 1];
        assert forall|v: u64| #[trigger] p.contains_key(v) <==> m.contains_key(v) && m[v] < n by {
            assert(o.contains_key(v) <==> m.contains_key(v) && m[v] < n - 1);
            if m.contains_key(v) && m[v] == n - 1 {
                assert(nodes[m[v] as int].vid == v);
            }
            if !x.removed && v == x.vid {
                assert(m.contains_key(x.vid) && m[x.vid] == n - 1);
            }
        }
        assert forall|v: u64| #[trigger] p.contains_key(v) implies p[v] == m[v] by {
            if !x.removed && v == x.vid {
                assert(m[x.vid] == n - 1);
            } else {
                assert(o.contains_key(v));
            }
        }
    }
}

proof fn lemma_body_len(
    nodes: Seq<NodeV>,
    dim: nat,
    i: int,
    page: Seq<u8>,
    count: nat,
    body: Seq<Seq<u8>>,
)
    requires
        0 <= i <= nodes.len(),
        body.len() + (if count > 0 {
            1int
        } else {
            0
        }) <= i,
    ensures
        packed_from(nodes, dim, i, page, count, body) matches Some(v) ==> v.len() <= nodes.len(),
    decreases nodes.len() - i,
{
    if i < nodes.len() && nodes[i].vector.len() == dim {
        let rec = node_bytes(nodes[i]);
        if rec.len() + 4 <= PAGE_CAP {
            if 4 + page.len() + rec.len() > PAGE_CAP {
                lemma_body_len(nodes, dim, i + 1, rec, 1, flushed(page, count, body));
            } else {
                lemma_body_len(nodes, dim, i + 1, page + rec, count + 1, body);
            }
        }
    }
}

/// What the fields of a page can say: nodes are numbered in four bytes.
pub open spec fn pageable(g: GraphV) -> bool {
    g.nodes.len() <= u32::MAX
}

proof fn lemma_dim(n: NodeV)
    requires
        node_bytes(n).len() + 4 <= PAGE_CAP,
    ensures
        n.vector.len() <= PAGE_CAP,
{
    lemma_numbers(n.vector, 0, Seq::empty());
    assert(node_bytes(n).len() >= numbers_from(n.vector, 0).len());
}

proof fn lemma_header_for(g: GraphV, lsn: u64)
    requires
        graph_ok(g),
        pageable(g),
        frames_of(g, lsn) is Some,
    ensures
        ({
            let dim = g.nodes[0].vector.len();
            let body = packed_from(g.nodes, dim, 0, Seq::empty(), 0, Seq::empty())->0;
            let h = header_for(g, lsn, body.len());
            &&& header_fits(h)
            &&& h.num_body_pages == body.len()
            &&& h.dim == dim
            &&& h.node_count == g.nodes.len()
            &&& get_header(header_bytes(h).subrange(8, header_bytes(h).len() as int)) == Ok::<
                (HeaderV, Seq<u8>),
                ErrorV,
            >((h, Seq::empty()))
        }),
{
    let nodes = g.nodes;
    let dim = nodes[0].vector.len();
    let body = packed_from(nodes, dim, 0, Seq::empty(), 0, Seq::empty())->0;
    let h = header_for(g, lsn, body.len());
    let rec = node_bytes(nodes[0]);
    assert(rec.len() + 4 <= PAGE_CAP);
    lemma_dim(nodes[0]);
    lemma_body_len(nodes, dim, 0, Seq::empty(), 0, Seq::empty());
    assert(body.len() as usize == body.len());
    assert(text_fits(g.def.name)) by {
        assert(header_bytes(h).len() >= encode_utf8(g.def.name).len());
    }
    assert(header_fits(h));
    lemma_header(h);
}

/// What is laid out in pages is read back from them: the same nodes and links, the
/// same entry, marks and floor. Draws of layers start anew.
pub proof fn law_pages_round_trip(g: GraphV, lsn: u64)
    requires
        graph_ok(g),
        pageable(g),
        frames_of(g, lsn) is Some,
    ensures
        graph_of(g.def, frames_of(g, lsn)->0) == Some(GraphV { rng: DRAW_SEED, ..g }),
        header_of(frames_of(g, lsn)->0[0])->0.reflected_lsn == lsn,
        header_of(frames_of(g, lsn)->0[0])->0.name == g.def.name,
{
    let nodes = g.nodes;
    let dim = nodes[0].vector.len();
    let all = frames_of(g, lsn)->0;
    let body = packed_from(nodes, dim, 0, Seq::empty(), 0, Seq::empty())->0;
    let h = header_for(g, lsn, body.len());
    lemma_header_for(g, lsn);
    lemma_header(h);
    assert(all[0] == header_bytes(h));
    assert forall|k: int| 0 <= k < nodes.len() implies low((#[trigger] nodes[k]).neighbors) by {
        assert forall|l: int, j: int|
            #![trigger nodes[k].neighbors[l][j]]
            0 <= l < nodes[k].neighbors.len() && 0 <= j
                < nodes[k].neighbors[l].len() implies nodes[k].neighbors[l][j] <= u32::MAX by {
            assert(nodes[k].neighbors[l][j] < nodes.len());
        }
    }
    assert(run(nodes, 0, 0) =~= Seq::<u8>::empty());
    assert(nodes.take(0) =~= Seq::<NodeV>::empty());
    lemma_packed(nodes, dim, 0, Seq::empty(), 0, Seq::empty());
    lemma_shifted(body, header_bytes(h), 0, dim, Seq::empty());
    assert(all =~= seq![header_bytes(h)] + body);
    assert(pages_nodes(all, 1, h.dim as nat, Seq::empty()) == Some(nodes));
    assert(versions_ok(nodes)) by {
        assert forall|i: int, j: int|
            #![trigger nodes[i], nodes[j]]
            0 <= i < j < nodes.len() && !nodes[i].removed && !nodes[j].removed implies nodes[i].vid
            != nodes[j].vid by {
            assert(g.by_vid[nodes[i].vid] == i);
            assert(g.by_vid[nodes[j].vid] == j);
        }
    }
    lemma_map(nodes, g.by_vid, nodes.len() as int);
    assert(map_of(nodes, nodes.len() as int) =~= g.by_vid);
}

/// Whatever was inserted into an index, marked and taken out of it: read back from its
/// pages it has the same count of vectors, the same of them live and the same floor,
/// and every search of it gives the same. No page is longer than there is room for.
pub proof fn law_pages_keep_searches(
    g: GraphV,
    lsn: u64,
    k: Map<u128, u64>,
    want: usize,
    ef: Option<usize>,
)
    requires
        graph_ok(g),
        pageable(g),
        frames_of(g, lsn) is Some,
    ensures
        graph_of(g.def, frames_of(g, lsn)->0) is Some,
        ({
            let r = graph_of(g.def, frames_of(g, lsn)->0)->0;
            &&& graph_ok(r)
            &&& searched(r, k, want, ef) == searched(g, k, want, ef)
            &&& r.by_vid.len() == g.by_vid.len()
            &&& live_count(r) == live_count(g)
            &&& r.rebuild_floor == g.rebuild_floor
        }),
        forall|i: int|
            0 <= i < frames_of(g, lsn)->0.len() ==> (#[trigger] frames_of(g, lsn)->0[i]).len()
                <= PAGE_CAP,
{
    law_pages_round_trip(g, lsn);
    law_pages_fit(g, lsn);
}

// ---- the first page -------------------------------------------------------------------------------

/// What is read from the front of some bytes is read from it whatever follows them.
proof fn lemma_more_bytes(b: Seq<u8>, p: Seq<u8>, n: nat)
    ensures
        get_bytes(b, n) matches Ok((x, r)) ==> get_bytes(b + p, n) == Ok::<
            (Seq<u8>, Seq<u8>),
            ErrorV,
        >((x, r + p)),
{
    if b.len() >= n {
        let c = b + p;
        assert(c.subrange(0, n as int) =~= b.subrange(0, n as int));
        assert(c.subrange(n as int, c.len() as int) =~= b.subrange(n as int, b.len() as int) + p);
    }
}

proof fn lemma_more_text(b: Seq<u8>, p: Seq<u8>)
    ensures
        get_text(b) matches Ok((x, r)) ==> get_text(b + p) == Ok::<(Seq<char>, Seq<u8>), ErrorV>(
            (x, r + p),
        ),
{
    lemma_more_bytes(b, p, 4);
    if let Ok((n, r)) = get_u32(b) {
        lemma_more_bytes(r, p, n as nat);
    }
}

proof fn lemma_more_tail(b: Seq<u8>, p: Seq<u8>)
    ensures
        get_header_tail(b) matches Ok((x, r)) ==> get_header_tail(b + p) == Ok::<
            ((u64, u64, u64, u32, Seq<char>), Seq<u8>),
            ErrorV,
        >((x, r + p)),
{
    lemma_more_bytes(b, p, 8);
    if let Ok((_, r1)) = get_u64(b) {
        lemma_more_bytes(r1, p, 8);
        if let Ok((_, r2)) = get_u64(r1) {
            lemma_more_bytes(r2, p, 8);
            if let Ok((_, r3)) = get_u64(r2) {
                lemma_more_bytes(r3, p, 4);
                if let Ok((_, r4)) = get_u32(r3) {
                    lemma_more_text(r4, p);
                }
            }
        }
    }
}

proof fn lemma_more_header(b: Seq<u8>, p: Seq<u8>)
    ensures
        get_header(b) matches Ok((x, r)) ==> get_header(b + p) == Ok::<(HeaderV, Seq<u8>), ErrorV>(
            (x, r + p),
        ),
{
    lemma_more_bytes(b, p, 1);
    if let Ok((_, r1)) = get_u8(b) {
        lemma_more_bytes(r1, p, 4);
        if let Ok((_, r2)) = get_u32(r1) {
            lemma_more_bytes(r2, p, 8);
            if let Ok((_, r3)) = get_u64(r2) {
                lemma_more_bytes(r3, p, 8);
                if let Ok((_, r4)) = get_entry(r3) {
                    lemma_more_bytes(r4, p, 4);
                    if let Ok((_, r5)) = get_u32(r4) {
                        lemma_more_tail(r5, p);
                    }
                }
            }
        }
    }
}

/// The first page of an index says which log position it reflects, the name and the
/// metric of the index, and how many pages follow. With padding behind it, it says the
/// same; cut short anywhere, or with one of its first eight bytes changed, it is no
/// first page.
pub proof fn law_first_page_is_known(g: GraphV, lsn: u64, pad: Seq<u8>, cut: int, at: int, x: u8)
    requires
        graph_ok(g),
        pageable(g),
        frames_of(g, lsn) is Some,
        0 <= cut < frames_of(g, lsn)->0[0].len(),
        0 <= at < 8,
        x != frames_of(g, lsn)->0[0][at],
    ensures
        ({
            let all = frames_of(g, lsn)->0;
            let first = all[0];
            &&& header_of(first) matches Some(h) && {
                &&& h.reflected_lsn == lsn
                &&& h.name == g.def.name
                &&& h.metric == g.def.params.metric
                &&& h.num_body_pages + 1 == all.len()
            }
            &&& header_of(first + pad) == header_of(first)
            &&& header_of(first.take(cut)) is None
            &&& header_of(first.update(at, x)) is None
        }),
{
    let all = frames_of(g, lsn)->0;
    let first = all[0];
    let body = packed_from(g.nodes, g.nodes[0].vector.len(), 0, Seq::empty(), 0, Seq::empty())->0;
    let h = header_for(g, lsn, body.len());
    lemma_header_for(g, lsn);
    lemma_header(h);
    assert(first == header_bytes(h));
    let inner = first.subrange(8, first.len() as int);
    assert(first.subrange(0, 8) =~= magic());
    assert(header_of(first + pad) == Some(h)) by {
        let more = first + pad;
        assert(more.subrange(0, 8) =~= magic());
        assert(more.subrange(8, more.len() as int) =~= inner + pad);
        lemma_more_header(inner, pad);
    }
    assert(header_of(first.take(cut)) is None) by {
        let short = first.take(cut);
        if cut >= 8 {
            let front = short.subrange(8, cut);
            let tail = first.subrange(cut, first.len() as int);
            assert(front + tail =~= inner);
            lemma_more_header(front, tail);
            if let Ok((_, r)) = get_header(front) {
                assert((r + tail).len() > 0);
            }
        }
    }
    assert(header_of(first.update(at, x)) is None) by {
        let other = first.update(at, x);
        assert(other.subrange(0, 8)[at] == x);
        assert(magic()[at] == first.subrange(0, 8)[at]);
    }
}

} // verus!
