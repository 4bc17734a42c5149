//! A graph laid out in pages, so that opening a database can load it in place of
//! building it again.
//!
//! The first page describes the graph; the others hold its nodes, as many to a page
//! as fit. Pages are a convenience: where they are missing, old or garbled in any way
//! the graph is built from the rows.
use std::collections::HashMap;
use vstd::prelude::*;
use vstd::std_specs::hash::*;
use crate::codec::{
    get_text, get_u32, get_u64, get_u8, le32, le64, lemma_got_u32, lemma_got_u64, put_all, put_len,
    put_str, put_u32, put_u64, text_bytes, Cursor, Got,
};
use crate::error::{EngineError, ErrorV};
use crate::graph::{
    dead_nodes, graph_ok, links_ok, links_view, mapped, nodes_view, DRAW_SEED, GraphV, Node, NodeV,
    VectorIndex,
};
use crate::text::{names_match, same_name};
use crate::vector::{IndexDef, IndexDefV, Metric};

verus! {

broadcast use group_hash_axioms;

/// The size of a page.
pub const PAGE_CAP: usize = 4096;

/// What the first page begins with.
pub open spec fn magic() -> Seq<u8> {
    seq![84u8, 87u8, 73u8, 86u8, 73u8, 68u8, 88u8, 49u8]
}

// ---- writing --------------------------------------------------------------------------------------

/// The numbers from `i` on.
pub open spec fn numbers_from(v: Seq<u32>, i: int) -> Seq<u8>
    decreases v.len() - i,
{
    if i < 0 || i >= v.len() {
        Seq::empty()
    } else {
        le32(v[i]) + numbers_from(v, i + 1)
    }
}

/// The neighbours from `i` on.
pub open spec fn ordinals_from(v: Seq<usize>, i: int) -> Seq<u8>
    decreases v.len() - i,
{
    if i < 0 || i >= v.len() {
        Seq::empty()
    } else {
        le32(v[i] as u32) + ordinals_from(v, i + 1)
    }
}

pub open spec fn level_bytes(v: Seq<usize>) -> Seq<u8> {
    le32(v.len() as u32) + ordinals_from(v, 0)
}

/// The layers from `i` on.
pub open spec fn levels_from(v: Seq<Seq<usize>>, i: int) -> Seq<u8>
    decreases v.len() - i,
{
    if i < 0 || i >= v.len() {
        Seq::empty()
    } else {
        level_bytes(v[i]) + levels_from(v, i + 1)
    }
}

pub open spec fn mark_byte(n: NodeV) -> u8 {
    if n.removed {
        if n.dead {
            3
        } else {
            1
        }
    } else if n.dead {
        2
    } else {
        0
    }
}

/// A node as it stands on a page.
pub open spec fn node_bytes(n: NodeV) -> Seq<u8> {
    le64(n.vid) + (seq![mark_byte(n)] + (le32(n.neighbors.len() as u32) + (numbers_from(
        n.vector,
        0,
    ) + levels_from(n.neighbors, 0))))
}

/// The pages with one more, unless it would be empty.
pub open spec fn flushed(page: Seq<u8>, count: nat, body: Seq<Seq<u8>>) -> Seq<Seq<u8>> {
    if count == 0 {
        body
    } else {
        body.push(le32(count as u32) + page)
    }
}

/// The pages that the nodes from `i` on take, behind those in `body` and a page under
/// way. There are none where vectors differ in length, or a node fits no page.
pub open spec fn packed_from(
    nodes: Seq<NodeV>,
    dim: nat,
    i: int,
    page: Seq<u8>,
    count: nat,
    body: Seq<Seq<u8>>,
) -> Option<Seq<Seq<u8>>>
    decreases nodes.len() - i,
{
    if i < 0 || i >= nodes.len() {
        Some(flushed(page, count, body))
    } else if nodes[i].vector.len() != dim {
        None
    } else {
        let rec = node_bytes(nodes[i]);
        if rec.len() + 4 > PAGE_CAP {
            None
        } else if 4 + page.len() + rec.len() > PAGE_CAP {
            packed_from(nodes, dim, i + 1, rec, 1, flushed(page, count, body))
        } else {
            packed_from(nodes, dim, i + 1, page + rec, count + 1, body)
        }
    }
}

pub open spec fn entry_word(e: Option<usize>) -> u64 {
    match e {
        Some(n) => n as u64,
        None => u64::MAX,
    }
}

/// What the first page says.
pub struct VectorPageHeader {
    pub metric: Metric,
    pub dim: usize,
    pub node_count: usize,
    pub entry: Option<usize>,
    pub max_level: usize,
    /// The committed state that the pages hold.
    pub reflected_lsn: u64,
    pub dead_count: usize,
    pub rebuild_floor: u64,
    pub num_body_pages: usize,
    pub name: String,
}

pub struct HeaderV {
    pub metric: Metric,
    pub dim: usize,
    pub node_count: usize,
    pub entry: Option<usize>,
    pub max_level: usize,
    pub reflected_lsn: u64,
    pub dead_count: usize,
    pub rebuild_floor: u64,
    pub num_body_pages: usize,
    pub name: Seq<char>,
}

impl View for VectorPageHeader {
    type V = HeaderV;

    open spec fn view(&self) -> HeaderV {
        HeaderV {
            metric: self.metric,
            dim: self.dim,
            node_count: self.node_count,
            entry: self.entry,
            max_level: self.max_level,
            reflected_lsn: self.reflected_lsn,
            dead_count: self.dead_count,
            rebuild_floor: self.rebuild_floor,
            num_body_pages: self.num_body_pages,
            name: self.name@,
        }
    }
}

pub open spec fn header_tail(h: HeaderV) -> Seq<u8> {
    le64(h.reflected_lsn) + (le64(h.dead_count as u64) + (le64(h.rebuild_floor) + (le32(
        h.num_body_pages as u32,
    ) + text_bytes(h.name))))
}

pub open spec fn header_bytes(h: HeaderV) -> Seq<u8> {
    magic() + (seq![h.metric.spec_tag()] + (le32(h.dim as u32) + (le64(h.node_count as u64) + (le64(
        entry_word(h.entry),
    ) + (le32(h.max_level as u32) + header_tail(h))))))
}

pub open spec fn header_for(g: GraphV, lsn: u64, pages: nat) -> HeaderV {
    HeaderV {
        metric: g.def.params.metric,
        dim: g.nodes[0].vector.len() as usize,
        node_count: g.nodes.len() as usize,
        entry: g.entry,
        max_level: g.max_level,
        reflected_lsn: lsn,
        dead_count: g.dead_count,
        rebuild_floor: g.rebuild_floor,
        num_body_pages: pages as usize,
        name: g.def.name,
    }
}

/// The pages of a graph: none for an empty one, nor where something fits no page.
pub open spec fn frames_of(g: GraphV, lsn: u64) -> Option<Seq<Seq<u8>>> {
    if g.nodes.len() == 0 {
        None
    } else {
        match packed_from(g.nodes, g.nodes[0].vector.len(), 0, Seq::empty(), 0, Seq::empty()) {
            None => None,
            Some(body) => {
                let head = header_bytes(header_for(g, lsn, body.len()));
                if head.len() > PAGE_CAP {
                    None
                } else {
                    Some(seq![head] + body)
                }
            },
        }
    }
}

pub open spec fn pages_view(v: Seq<Vec<u8>>) -> Seq<Seq<u8>> {
    Seq::new(v.len(), |i: int| v[i]@)
}

fn put_numbers(b: &mut Vec<u8>, v: &Vec<u32>)
    ensures
        final(b)@ == old(b)@ + numbers_from(v@, 0),
{
    let ghost b0 = b@;
    let mut i: usize = 0;
    while i < v.len()
        invariant
            i <= v@.len(),
            b@ + numbers_from(v@, i as int) == b0 + numbers_from(v@, 0),
        decreases v@.len() - i,
    {
        let ghost before = b@;
        put_u32(b, v[i]);
        assert(before + (le32(v@[i as int]) + numbers_from(v@, i + 1)) =~= b@ + numbers_from(
            v@,
            i + 1,
        ));
        i += 1;
    }
    assert(b@ + Seq::<u8>::empty() =~= b@);
}

fn put_ordinals(b: &mut Vec<u8>, v: &Vec<usize>)
    ensures
        final(b)@ == old(b)@ + ordinals_from(v@, 0),
{
    let ghost b0 = b@;
    let mut i: usize = 0;
    while i < v.len()
        invariant
            i <= v@.len(),
            b@ + ordinals_from(v@, i as int) == b0 + ordinals_from(v@, 0),
        decreases v@.len() - i,
    {
        let ghost before = b@;
        put_len(b, v[i]);
        assert(before + (le32(v@[i as int] as u32) + ordinals_from(v@, i + 1)) =~= b@
            + ordinals_from(v@, i + 1));
        i += 1;
    }
    assert(b@ + Seq::<u8>::empty() =~= b@);
}

fn put_levels(b: &mut Vec<u8>, v: &Vec<Vec<usize>>)
    ensures
        final(b)@ == old(b)@ + levels_from(links_view(v@), 0),
{
    let ghost b0 = b@;
    let ghost lv = links_view(v@);
    let mut i: usize = 0;
    while i < v.len()
        invariant
            i <= v@.len(),
            lv == links_view(v@),
            b@ + levels_from(lv, i as int) == b0 + levels_from(lv, 0),
        decreases v@.len() - i,
    {
        let ghost before = b@;
        assert(lv[i as int] == v@[i as int]@);
        put_len(b, v[i].len());
        put_ordinals(b, &v[i]);
        assert(b@ =~= before + level_bytes(lv[i as int]));
        assert(before + (level_bytes(lv[i as int]) + levels_from(lv, i + 1)) =~= b@ + levels_from(
            lv,
            i + 1,
        ));
        i += 1;
    }
    assert(b@ + Seq::<u8>::empty() =~= b@);
}

fn write_node(n: &Node) -> (r: Vec<u8>)
    ensures
        r@ == node_bytes(n@),
{
    let mut b: Vec<u8> = Vec::new();
    put_u64(&mut b, n.vid);
    let mark: u8 = if n.removed {
        if n.dead {
            3
        } else {
            1
        }
    } else if n.dead {
        2
    } else {
        0
    };
    b.push(mark);
    put_len(&mut b, n.neighbors.len());
    put_numbers(&mut b, &n.vector);
    put_levels(&mut b, &n.neighbors);
    assert(n@.neighbors.len() == n.neighbors@.len());
    assert(b@ =~= node_bytes(n@));
    b
}

fn flush(page: Vec<u8>, count: u32, body: Vec<Vec<u8>>) -> (r: Vec<Vec<u8>>)
    ensures
        pages_view(r@) == flushed(page@, count as nat, pages_view(body@)),
{
    let mut out = body;
    if count == 0 {
        return out;
    }
    let ghost before = pages_view(out@);
    let mut framed: Vec<u8> = Vec::new();
    put_u32(&mut framed, count);
    put_all(&mut framed, page.as_slice());
    let ghost fv = framed@;
    assert(fv =~= le32(count) + page@);
    out.push(framed);
    assert(pages_view(out@) =~= before.push(fv));
    out
}

proof fn lemma_node_len(n: NodeV)
    ensures
        node_bytes(n).len() >= 13,
{
    lemma_got_u64(n.vid, Seq::empty());
    lemma_got_u32(n.neighbors.len() as u32, Seq::empty());
}

fn pack(nodes: &Vec<Node>, dim: usize) -> (r: Option<Vec<Vec<u8>>>)
    ensures
        packed_from(nodes_view(nodes@), dim as nat, 0, Seq::empty(), 0, Seq::empty()) == (match r {
            Some(v) => Some(pages_view(v@)),
            None => None,
        }),
{
    let ghost nv = nodes_view(nodes@);
    let ghost want = packed_from(nv, dim as nat, 0, Seq::empty(), 0, Seq::empty());
    let mut body: Vec<Vec<u8>> = Vec::new();
    let mut page: Vec<u8> = Vec::new();
    let mut count: u32 = 0;
    assert(pages_view(body@) =~= Seq::<Seq<u8>>::empty());
    assert(page@ =~= Seq::<u8>::empty());
    let mut i: usize = 0;
    while i < nodes.len()
        invariant
            i <= nodes@.len(),
            nv == nodes_view(nodes@),
            count <= page@.len() <= PAGE_CAP,
            want == packed_from(nv, dim as nat, 0, Seq::empty(), 0, Seq::empty()),
            packed_from(nv, dim as nat, i as int, page@, count as nat, pages_view(body@)) == want,
        decreases nodes@.len() - i,
    {
        assert(nv[i as int] == nodes@[i as int]@);
        if nodes[i].vector.len() != dim {
            return None;
        }
        let rec = write_node(&nodes[i]);
        proof {
            lemma_node_len(nv[i as int]);
        }
        if rec.len() > PAGE_CAP - 4 {
            return None;
        }
        if 4 + page.len() + rec.len() > PAGE_CAP {
            body = flush(page, count, body);
            page = rec;
            count = 1;
        } else {
            put_all(&mut page, rec.as_slice());
            count += 1;
        }
        i += 1;
    }
    Some(flush(page, count, body))
}

fn write_header(h: &VectorPageHeader) -> (r: Vec<u8>)
    ensures
        r@ == header_bytes(h@),
{
    let mut b: Vec<u8> = Vec::new();
    b.push(84);
    b.push(87);
    b.push(73);
    b.push(86);
    b.push(73);
    b.push(68);
    b.push(88);
    b.push(49);
    assert(b@ =~= magic());
    b.push(h.metric.tag());
    put_len(&mut b, h.dim);
    put_u64(&mut b, h.node_count as u64);
    let entry: u64 = match h.entry {
        Some(n) => n as u64,
        None => u64::MAX,
    };
    put_u64(&mut b, entry);
    put_len(&mut b, h.max_level);
    let ghost front = b@;
    assert(front =~= magic() + (seq![h.metric.spec_tag()] + (le32(h.dim as u32) + (le64(
        h.node_count as u64,
    ) + (le64(entry_word(h.entry)) + le32(h.max_level as u32))))));
    put_u64(&mut b, h.reflected_lsn);
    put_u64(&mut b, h.dead_count as u64);
    put_u64(&mut b, h.rebuild_floor);
    put_len(&mut b, h.num_body_pages);
    put_str(&mut b, &h.name);
    assert(b@ =~= front + header_tail(h@));
    assert(b@ =~= header_bytes(h@));
    b
}

// ---- reading --------------------------------------------------------------------------------------

/// `n` numbers behind those in `acc`.
pub open spec fn get_numbers(b: Seq<u8>, n: nat, acc: Seq<u32>) -> Got<Seq<u32>>
    decreases n,
{
    if n == 0 {
        Ok((acc, b))
    } else {
        match get_u32(b) {
            Err(e) => Err(e),
            Ok((x, r)) => get_numbers(r, (n - 1) as nat, acc.push(x)),
        }
    }
}

/// `n` neighbours behind those in `acc`.
pub open spec fn get_ordinals(b: Seq<u8>, n: nat, acc: Seq<usize>) -> Got<Seq<usize>>
    decreases n,
{
    if n == 0 {
        Ok((acc, b))
    } else {
        match get_u32(b) {
            Err(e) => Err(e),
            Ok((x, r)) => get_ordinals(r, (n - 1) as nat, acc.push(x as usize)),
        }
    }
}

pub open spec fn get_level(b: Seq<u8>) -> Got<Seq<usize>> {
    match get_u32(b) {
        Err(e) => Err(e),
        Ok((n, r)) => get_ordinals(r, n as nat, Seq::empty()),
    }
}

/// `n` layers behind those in `acc`.
pub open spec fn get_levels(b: Seq<u8>, n: nat, acc: Seq<Seq<usize>>) -> Got<Seq<Seq<usize>>>
    decreases n,
{
    if n == 0 {
        Ok((acc, b))
    } else {
        match get_level(b) {
            Err(e) => Err(e),
            Ok((x, r)) => get_levels(r, (n - 1) as nat, acc.push(x)),
        }
    }
}

pub open spec fn get_node(b: Seq<u8>, dim: nat) -> Got<NodeV> {
    match get_u64(b) {
        Err(e) => Err(e),
        Ok((vid, r1)) => match get_u8(r1) {
            Err(e) => Err(e),
            Ok((mark, r2)) => match get_u32(r2) {
                Err(e) => Err(e),
                Ok((n, r3)) => match get_numbers(r3, dim, Seq::empty()) {
                    Err(e) => Err(e),
                    Ok((vector, r4)) => match get_levels(r4, n as nat, Seq::empty()) {
                        Err(e) => Err(e),
                        Ok((neighbors, r5)) => Ok(
                            (
                                NodeV {
                                    vid,
                                    vector,
                                    neighbors,
                                    removed: mark % 2 == 1,
                                    dead: (mark / 2) % 2 == 1,
                                },
                                r5,
                            ),
                        ),
                    },
                },
            },
        },
    }
}

/// `n` nodes behind those in `acc`.
pub open spec fn get_nodes(b: Seq<u8>, n: nat, dim: nat, acc: Seq<NodeV>) -> Got<Seq<NodeV>>
    decreases n,
{
    if n == 0 {
        Ok((acc, b))
    } else {
        match get_node(b, dim) {
            Err(e) => Err(e),
            Ok((x, r)) => get_nodes(r, (n - 1) as nat, dim, acc.push(x)),
        }
    }
}

/// The nodes of a page behind those in `acc`.
pub open spec fn page_nodes(b: Seq<u8>, dim: nat, acc: Seq<NodeV>) -> Option<Seq<NodeV>> {
    match get_u32(b) {
        Err(_) => None,
        Ok((n, r)) => match get_nodes(r, n as nat, dim, acc) {
            Err(_) => None,
            Ok((v, _)) => Some(v),
        },
    }
}

/// The nodes of the pages from `i` on behind those in `acc`.
pub open spec fn pages_nodes(frames: Seq<Seq<u8>>, i: int, dim: nat, acc: Seq<NodeV>) -> Option<
    Seq<NodeV>,
>
    decreases frames.len() - i,
{
    if i < 0 || i >= frames.len() {
        Some(acc)
    } else {
        match page_nodes(frames[i], dim, acc) {
            None => None,
            Some(v) => pages_nodes(frames, i + 1, dim, v),
        }
    }
}

pub open spec fn get_entry(b: Seq<u8>) -> Got<Option<usize>> {
    match get_u64(b) {
        Err(e) => Err(e),
        Ok((x, r)) => Ok(
            (
                if x == u64::MAX {
                    None
                } else {
                    Some(x as usize)
                },
                r,
            ),
        ),
    }
}

/// What the second half of a first page says.
pub open spec fn get_header_tail(b: Seq<u8>) -> Got<(u64, u64, u64, u32, Seq<char>)> {
    match get_u64(b) {
        Err(e) => Err(e),
        Ok((lsn, r1)) => match get_u64(r1) {
            Err(e) => Err(e),
            Ok((dead, r2)) => match get_u64(r2) {
                Err(e) => Err(e),
                Ok((floor, r3)) => match get_u32(r3) {
                    Err(e) => Err(e),
                    Ok((pages, r4)) => match get_text(r4) {
                        Err(e) => Err(e),
                        Ok((name, r5)) => Ok(((lsn, dead, floor, pages, name), r5)),
                    },
                },
            },
        },
    }
}

pub open spec fn get_header(b: Seq<u8>) -> Got<HeaderV> {
    match get_u8(b) {
        Err(e) => Err(e),
        Ok((tag, r1)) => match get_u32(r1) {
            Err(e) => Err(e),
            Ok((dim, r2)) => match get_u64(r2) {
                Err(e) => Err(e),
                Ok((count, r3)) => match get_entry(r3) {
                    Err(e) => Err(e),
                    Ok((entry, r4)) => match get_u32(r4) {
                        Err(e) => Err(e),
                        Ok((max_level, r5)) => match get_header_tail(r5) {
                            Err(e) => Err(e),
                            Ok(((lsn, dead, floor, pages, name), r6)) => Ok(
                                (
                                    HeaderV {
                                        metric: Metric::of_tag(tag),
                                        dim: dim as usize,
                                        node_count: count as usize,
                                        entry,
                                        max_level: max_level as usize,
                                        reflected_lsn: lsn,
                                        dead_count: dead as usize,
                                        rebuild_floor: floor,
                                        num_body_pages: pages as usize,
                                        name,
                                    },
                                    r6,
                                ),
                            ),
                        },
                    },
                },
            },
        },
    }
}

/// What a first page says, if it is one.
pub open spec fn header_of(b: Seq<u8>) -> Option<HeaderV> {
    if b.len() < 8 || b.subrange(0, 8) != magic() {
        None
    } else {
        match get_header(b.subrange(8, b.len() as int)) {
            Err(_) => None,
            Ok((h, _)) => Some(h),
        }
    }
}

/// The nodes of the first `n` that are not gone, by their versions.
pub open spec fn map_of(nodes: Seq<NodeV>, n: int) -> Map<u64, usize>
    decreases n,
{
    if n <= 0 || n > nodes.len() {
        Map::empty()
    } else if nodes[n - 1].removed {
        map_of(nodes, n - 1)
    } else {
        map_of(nodes, n - 1).insert(nodes[n - 1].vid, (n - 1) as usize)
    }
}

/// Whether no two nodes that are not gone share a version.
pub open spec fn versions_ok(nodes: Seq<NodeV>) -> bool {
    forall|i: int, j: int|
        #![trigger nodes[i], nodes[j]]
        0 <= i < j < nodes.len() && !nodes[i].removed && !nodes[j].removed ==> nodes[i].vid
            != nodes[j].vid
}

/// The graph that pages hold. There is none where anything in them disagrees.
pub open spec fn graph_of(def: IndexDefV, frames: Seq<Seq<u8>>) -> Option<GraphV> {
    if frames.len() == 0 {
        None
    } else {
        match header_of(frames[0]) {
            None => None,
            Some(h) => if h.num_body_pages + 1 != frames.len() || h.metric != def.params.metric {
                None
            } else {
                match pages_nodes(frames, 1, h.dim as nat, Seq::empty()) {
                    None => None,
                    Some(nodes) => if nodes.len() != h.node_count || !links_ok(nodes)
                        || !versions_ok(nodes) || (h.entry is Some && h.entry->0 >= nodes.len())
                        || dead_nodes(nodes, nodes.len() as int) != h.dead_count {
                        None
                    } else {
                        Some(
                            GraphV {
                                def,
                                nodes,
                                by_vid: map_of(nodes, nodes.len() as int),
                                entry: h.entry,
                                max_level: h.max_level,
                                rng: DRAW_SEED,
                                dead_count: h.dead_count,
                                rebuild_floor: h.rebuild_floor,
                            },
                        )
                    },
                }
            },
        }
    }
}

fn read_numbers(c: &mut Cursor, n: usize) -> (r: Result<Vec<u32>, EngineError>)
    requires
        old(c).wf(),
    ensures
        final(c).wf(),
        get_numbers(old(c).rest(), n as nat, Seq::empty()) == (match r {
            Ok(v) => Ok::<(Seq<u32>, Seq<u8>), ErrorV>((v@, final(c).rest())),
            Err(e) => Err(e@),
        }),
{
    let ghost b0 = c.rest();
    let mut out: Vec<u32> = Vec::new();
    let mut i: usize = 0;
    while i < n
        invariant
            i <= n,
            c.wf(),
            b0 == old(c).rest(),
            get_numbers(c.rest(), (n - i) as nat, out@) == get_numbers(
                b0,
                n as nat,
                Seq::empty(),
            ),
        decreases n - i,
    {
        let x: u32 = c.u32()?;
        out.push(x);
        i += 1;
    }
    Ok(out)
}

fn read_level(c: &mut Cursor) -> (r: Result<Vec<usize>, EngineError>)
    requires
        old(c).wf(),
    ensures
        final(c).wf(),
        get_level(old(c).rest()) == (match r {
            Ok(v) => Ok::<(Seq<usize>, Seq<u8>), ErrorV>((v@, final(c).rest())),
            Err(e) => Err(e@),
        }),
{
    let n: u32 = c.u32()?;
    let ghost b0 = c.rest();
    let mut out: Vec<usize> = Vec::new();
    let mut i: u32 = 0;
    while i < n
        invariant
            i <= n,
            c.wf(),
            get_u32(old(c).rest()) == Ok::<(u32, Seq<u8>), ErrorV>((n, b0)),
            get_ordinals(c.rest(), (n - i) as nat, out@) == get_ordinals(
                b0,
                n as nat,
                Seq::empty(),
            ),
        decreases n - i,
    {
        let x: u32 = c.u32()?;
        out.push(x as usize);
        i += 1;
    }
    Ok(out)
}

fn read_levels(c: &mut Cursor, n: u32) -> (r: Result<Vec<Vec<usize>>, EngineError>)
    requires
        old(c).wf(),
    ensures
        final(c).wf(),
        get_levels(old(c).rest(), n as nat, Seq::empty()) == (match r {
            Ok(v) => Ok::<(Seq<Seq<usize>>, Seq<u8>), ErrorV>((links_view(v@), final(c).rest())),
            Err(e) => Err(e@),
        }),
{
    let ghost b0 = c.rest();
    let mut out: Vec<Vec<usize>> = Vec::new();
    assert(links_view(out@) =~= Seq::<Seq<usize>>::empty());
    let mut i: u32 = 0;
    while i < n
        invariant
            i <= n,
            c.wf(),
            b0 == old(c).rest(),
            get_levels(c.rest(), (n - i) as nat, links_view(out@)) == get_levels(
                b0,
                n as nat,
                Seq::empty(),
            ),
        decreases n - i,
    {
        let x = read_level(c)?;
        let ghost before = links_view(out@);
        let ghost xv = x@;
        out.push(x);
        assert(links_view(out@) =~= before.push(xv));
        i += 1;
    }
    Ok(out)
}

fn read_node(c: &mut Cursor, dim: usize) -> (r: Result<Node, EngineError>)
    requires
        old(c).wf(),
    ensures
        final(c).wf(),
        get_node(old(c).rest(), dim as nat) == (match r {
            Ok(n) => Ok::<(NodeV, Seq<u8>), ErrorV>((n@, final(c).rest())),
            Err(e) => Err(e@),
        }),
{
    let vid: u64 = c.u64()?;
    let mark: u8 = c.u8()?;
    let n: u32 = c.u32()?;
    let vector = read_numbers(c, dim)?;
    let neighbors = read_levels(c, n)?;
    Ok(
        Node {
            vid,
            vector,
            neighbors,
            removed: mark % 2 == 1,
            dead: (mark / 2) % 2 == 1,
        },
    )
}

fn read_page(b: &Vec<u8>, dim: usize, nodes: Vec<Node>) -> (r: Option<Vec<Node>>)
    ensures
        page_nodes(b@, dim as nat, nodes_view(nodes@)) == (match r {
            Some(v) => Some(nodes_view(v@)),
            None => None,
        }),
{
    let ghost n0 = nodes_view(nodes@);
    let mut c = Cursor::new(b.as_slice());
    let n: u32 = match c.u32() {
        Ok(n) => n,
        Err(_) => {
            return None;
        },
    };
    let ghost b0 = c.rest();
    let mut out = nodes;
    let mut i: u32 = 0;
    while i < n
        invariant
            i <= n,
            c.wf(),
            get_u32(b@) == Ok::<(u32, Seq<u8>), ErrorV>((n, b0)),
            n0 == nodes_view(nodes@),
            get_nodes(c.rest(), (n - i) as nat, dim as nat, nodes_view(out@)) == get_nodes(
                b0,
                n as nat,
                dim as nat,
                n0,
            ),
        decreases n - i,
    {
        match read_node(&mut c, dim) {
            Err(_) => {
                return None;
            },
            Ok(x) => {
                let ghost before = nodes_view(out@);
                let ghost xv = x@;
                out.push(x);
                assert(nodes_view(out@) =~= before.push(xv));
            },
        }
        i += 1;
    }
    Some(out)
}

fn read_pages(frames: &Vec<Vec<u8>>, dim: usize) -> (r: Option<Vec<Node>>)
    requires
        frames@.len() >= 1,
    ensures
        pages_nodes(pages_view(frames@), 1, dim as nat, Seq::empty()) == (match r {
            Some(v) => Some(nodes_view(v@)),
            None => None,
        }),
{
    let ghost fv = pages_view(frames@);
    let ghost want = pages_nodes(fv, 1, dim as nat, Seq::empty());
    let mut out: Vec<Node> = Vec::new();
    assert(nodes_view(out@) =~= Seq::<NodeV>::empty());
    let mut i: usize = 1;
    while i < frames.len()
        invariant
            1 <= i <= frames@.len(),
            fv == pages_view(frames@),
            pages_nodes(fv, i as int, dim as nat, nodes_view(out@)) == want,
            want == pages_nodes(fv, 1, dim as nat, Seq::empty()),
        decreases frames@.len() - i,
    {
        assert(fv[i as int] == frames@[i as int]@);
        match read_page(&frames[i], dim, out) {
            None => {
                return None;
            },
            Some(v) => {
                out = v;
            },
        }
        i += 1;
    }
    Some(out)
}

fn read_header_tail(c: &mut Cursor) -> (r: Result<(u64, u64, u64, u32, String), EngineError>)
    requires
        old(c).wf(),
    ensures
        final(c).wf(),
        get_header_tail(old(c).rest()) == (match r {
            Ok((a, b, d, e, s)) => Ok::<((u64, u64, u64, u32, Seq<char>), Seq<u8>), ErrorV>(
                ((a, b, d, e, s@), final(c).rest()),
            ),
            Err(e) => Err(e@),
        }),
{
    let lsn: u64 = c.u64()?;
    let dead: u64 = c.u64()?;
    let floor: u64 = c.u64()?;
    let pages: u32 = c.u32()?;
    let name = c.str()?;
    Ok((lsn, dead, floor, pages, name))
}

fn read_header(c: &mut Cursor) -> (r: Result<VectorPageHeader, EngineError>)
    requires
        old(c).wf(),
    ensures
        final(c).wf(),
        get_header(old(c).rest()) == (match r {
            Ok(h) => Ok::<(HeaderV, Seq<u8>), ErrorV>((h@, final(c).rest())),
            Err(e) => Err(e@),
        }),
{
    let tag: u8 = c.u8()?;
    let dim: u32 = c.u32()?;
    let count: u64 = c.u64()?;
    let word: u64 = c.u64()?;
    let entry: Option<usize> = if word == u64::MAX {
        None
    } else {
        Some(
            #[verifier::truncate]
            (word as usize),
        )
    };
    let max_level: u32 = c.u32()?;
    let (lsn, dead, floor, pages, name): (u64, u64, u64, u32, String) = read_header_tail(c)?;
    Ok(
        VectorPageHeader {
            metric: Metric::from_tag(tag),
            dim: dim as usize,
            node_count: #[verifier::truncate]
            (count as usize),
            entry,
            max_level: max_level as usize,
            reflected_lsn: lsn,
            dead_count: #[verifier::truncate]
            (dead as usize),
            rebuild_floor: floor,
            num_body_pages: pages as usize,
            name,
        },
    )
}

fn has_magic(b: &[u8]) -> (r: bool)
    requires
        b@.len() >= 8,
    ensures
        r == (b@.subrange(0, 8) == magic()),
{
    let r = b[0] == 84 && b[1] == 87 && b[2] == 73 && b[3] == 86 && b[4] == 73 && b[5] == 68
        && b[6] == 88 && b[7] == 49;
    proof {
        let s = b@.subrange(0, 8);
        let m = magic();
        if r {
            assert(s =~= m);
        } else if s == m {
            assert(s[0] == m[0] && s[1] == m[1] && s[2] == m[2] && s[3] == m[3]);
            assert(s[4] == m[4] && s[5] == m[5] && s[6] == m[6] && s[7] == m[7]);
        }
    }
    r
}

/// Read the first page of a checkpoint; none where it is no such page, or garbled.
pub fn parse_page_header(frame: &[u8]) -> (r: Option<VectorPageHeader>)
    ensures
        header_of(frame@) == (match r {
            Some(h) => Some(h@),
            None => None,
        }),
{
    if frame.len() < 8 || !has_magic(frame) {
        return None;
    }
    let mut c = Cursor { b: frame, p: 8 };
    assert(c.rest() =~= frame@.subrange(8, frame@.len() as int));
    match read_header(&mut c) {
        Ok(h) => Some(h),
        Err(_) => None,
    }
}

/// Whether a checkpoint is that of an index, and holds just what is committed.
pub fn is_current(h: &VectorPageHeader, name: &str, committed: u64) -> (r: bool)
    ensures
        r == (same_name(h@.name, name@) && h@.reflected_lsn == committed),
{
    names_match(&h.name, name) && h.reflected_lsn == committed
}

// ---- whole graphs ---------------------------------------------------------------------------------

fn links_in_range(nodes: &Vec<Node>) -> (r: bool)
    ensures
        r == links_ok(nodes_view(nodes@)),
{
    let ghost nv = nodes_view(nodes@);
    let n: usize = nodes.len();
    let mut i: usize = 0;
    while i < n
        invariant
            i <= n,
            n == nodes@.len(),
            nv == nodes_view(nodes@),
            forall|a: int, l: int, j: int|
                #![trigger nv[a].neighbors[l][j]]
                0 <= a < i && 0 <= l < nv[a].neighbors.len() && 0 <= j < nv[a].neighbors[l].len()
                    ==> nv[a].neighbors[l][j] < n,
        decreases n - i,
    {
        assert(nv[i as int] == nodes@[i as int]@);
        let ghost lv = nv[i as int].neighbors;
        assert(lv == links_view(nodes@[i as int].neighbors@));
        let mut l: usize = 0;
        while l < nodes[i].neighbors.len()
            invariant
                i < n,
                n == nodes@.len(),
                nv == nodes_view(nodes@),
                lv == nv[i as int].neighbors,
                lv == links_view(nodes@[i as int].neighbors@),
                l <= lv.len(),
                forall|b: int, j: int|
                    #![trigger lv[b][j]]
                    0 <= b < l && 0 <= j < lv[b].len() ==> lv[b][j] < n,
            decreases lv.len() - l,
        {
            assert(lv[l as int] == nodes@[i as int].neighbors@[l as int]@);
            let mut j: usize = 0;
            while j < nodes[i].neighbors[l].len()
                invariant
                    i < n,
                    n == nodes@.len(),
                    nv == nodes_view(nodes@),
                    lv == nv[i as int].neighbors,
                    lv == links_view(nodes@[i as int].neighbors@),
                    l < lv.len(),
                    lv[l as int] == nodes@[i as int].neighbors@[l as int]@,
                    j <= lv[l as int].len(),
                    forall|c: int| 0 <= c < j ==> lv[l as int][c] < n,
                decreases lv[l as int].len() - j,
            {
                if nodes[i].neighbors[l][j] >= n {
                    assert(nv[i as int].neighbors[l as int][j as int] >= n);
                    return false;
                }
                j += 1;
            }
            l += 1;
        }
        assert forall|a: int, b: int, j: int|
            #![trigger nv[a].neighbors[b][j]]
            0 <= a < i + 1 && 0 <= b < nv[a].neighbors.len() && 0 <= j
                < nv[a].neighbors[b].len() implies nv[a].neighbors[b][j] < n by {
            if a == i {
                assert(lv[b][j] < n);
            }
        }
        i += 1;
    }
    true
}

/// What a map of the first `n` nodes says.
spec fn maps_first(nodes: Seq<NodeV>, m: Map<u64, usize>, n: int) -> bool {
    &&& forall|vid: u64| #[trigger]
        m.contains_key(vid) ==> m[vid] < n && nodes[m[vid] as int].vid == vid
            && !nodes[m[vid] as int].removed
    &&& forall|i: int|
        0 <= i < n && !(#[trigger] nodes[i]).removed ==> m.contains_key(nodes[i].vid)
}

proof fn lemma_maps_first(nodes: Seq<NodeV>, n: int)
    requires
        0 <= n <= nodes.len() <= usize::MAX,
    ensures
        maps_first(nodes, map_of(nodes, n), n),
    decreases n,
{
    if n > 0 {
        lemma_maps_first(nodes, n - 1);
    }
}

proof fn lemma_mapped(nodes: Seq<NodeV>)
    requires
        versions_ok(nodes),
        nodes.len() <= usize::MAX,
    ensures
        mapped(nodes, map_of(nodes, nodes.len() as int)),
{
    let m = map_of(nodes, nodes.len() as int);
    lemma_maps_first(nodes, nodes.len() as int);
    assert forall|i: int| 0 <= i < nodes.len() && !(#[trigger] nodes[i]).removed implies m.contains_key(
        nodes[i].vid,
    ) && m[nodes[i].vid] == i by {
        let j = m[nodes[i].vid] as int;
        assert(nodes[j].vid == nodes[i].vid);
        if j < i {
            assert(nodes[j].vid != nodes[i].vid);
        } else if i < j {
            assert(nodes[i].vid != nodes[j].vid);
        }
    }
}

/// The map of the nodes that are not gone, and how many of them are deleted; none
/// where two share a version.
fn map_nodes(nodes: &Vec<Node>) -> (r: Option<(HashMap<u64, usize>, usize)>)
    ensures
        match r {
            Some((m, dead)) => {
                let nv = nodes_view(nodes@);
                &&& versions_ok(nv)
                &&& m@ == map_of(nv, nv.len() as int)
                &&& dead == dead_nodes(nv, nv.len() as int)
            },
            None => !versions_ok(nodes_view(nodes@)),
        },
{
    let ghost nv = nodes_view(nodes@);
    let mut m: HashMap<u64, usize> = HashMap::new();
    let mut dead: usize = 0;
    let mut i: usize = 0;
    assert(nodes.len() == nv.len());
    while i < nodes.len()
        invariant
            i <= nodes@.len(),
            nv == nodes_view(nodes@),
            nodes@.len() <= usize::MAX,
            m@ == map_of(nv, i as int),
            dead == dead_nodes(nv, i as int),
            dead <= i,
            forall|a: int, b: int|
                #![trigger nv[a], nv[b]]
                0 <= a < b < i && !nv[a].removed && !nv[b].removed ==> nv[a].vid != nv[b].vid,
        decreases nodes@.len() - i,
    {
        assert(nv[i as int] == nodes@[i as int]@);
        proof {
            lemma_maps_first(nv, i as int);
        }
        if !nodes[i].removed {
            if m.contains_key(&nodes[i].vid) {
                proof {
                    let a = m@[nv[i as int].vid] as int;
                    assert(nv[a].vid == nv[i as int].vid && !nv[a].removed);
                }
                return None;
            }
            let _old = m.insert(nodes[i].vid, i);
            if nodes[i].dead {
                dead += 1;
            }
        }
        assert forall|a: int, b: int|
            #![trigger nv[a], nv[b]]
            0 <= a < b < i + 1 && !nv[a].removed && !nv[b].removed implies nv[a].vid
            != nv[b].vid by {
            if b == i {
                if nv[a].vid == nv[b].vid {
                    assert(map_of(nv, i as int).contains_key(nv[a].vid));
                }
            }
        }
        i += 1;
    }
    Some((m, dead))
}

impl VectorIndex {
    /// Lay the graph out in pages that hold what is committed at `reflected_lsn`.
    pub fn to_page_frames(&self, reflected_lsn: u64) -> (r: Option<Vec<Vec<u8>>>)
        ensures
            frames_of(self@, reflected_lsn) == (match r {
                Some(v) => Some(pages_view(v@)),
                None => None,
            }),
    {
        let ghost g = self@;
        if self.nodes.len() == 0 {
            return None;
        }
        assert(g.nodes[0] == self.nodes@[0]@);
        let dim: usize = self.nodes[0].vector.len();
        match pack(&self.nodes, dim) {
            None => None,
            Some(body) => {
                let ghost bv = pages_view(body@);
                let h = VectorPageHeader {
                    metric: self.def.params.metric,
                    dim,
                    node_count: self.nodes.len(),
                    entry: self.entry,
                    max_level: self.max_level,
                    reflected_lsn,
                    dead_count: self.dead_count,
                    rebuild_floor: self.rebuild_floor,
                    num_body_pages: body.len(),
                    name: self.def.name.clone(),
                };
                assert(h@ == header_for(g, reflected_lsn, bv.len()));
                let head = write_header(&h);
                let ghost hv = head@;
                if head.len() > PAGE_CAP {
                    return None;
                }
                let mut frames: Vec<Vec<u8>> = Vec::new();
                frames.push(head);
                let mut rest = body;
                frames.append(&mut rest);
                assert(pages_view(frames@) =~= seq![hv] + bv);
                Some(frames)
            },
        }
    }

    /// The graph that pages hold; none where anything in them disagrees.
    pub fn from_page_frames(def: IndexDef, frames: &Vec<Vec<u8>>) -> (r: Option<VectorIndex>)
        ensures
            graph_of(def@, pages_view(frames@)) == (match r {
                Some(g) => Some(g@),
                None => None,
            }),
            r is Some ==> graph_ok(r->0@),
    {
        let ghost fv = pages_view(frames@);
        if frames.len() == 0 {
            return None;
        }
        assert(fv[0] == frames@[0]@);
        let h = match parse_page_header(frames[0].as_slice()) {
            None => {
                return None;
            },
            Some(h) => h,
        };
        if h.num_body_pages != frames.len() - 1 || h.metric != def.params.metric {
            return None;
        }
        match read_pages(frames, h.dim) {
            None => None,
            Some(nodes) => {
                if nodes.len() != h.node_count || !links_in_range(&nodes) {
                    return None;
                }
                match h.entry {
                    Some(e) => {
                        if e >= nodes.len() {
                            return None;
                        }
                    },
                    None => {},
                }
                match map_nodes(&nodes) {
                    None => None,
                    Some((by_vid, dead)) => {
                        if dead != h.dead_count {
                            return None;
                        }
                        proof {
                            lemma_mapped(nodes_view(nodes@));
                        }
                        Some(
                            VectorIndex {
                                def,
                                nodes,
                                by_vid,
                                entry: h.entry,
                                max_level: h.max_level,
                                rng: DRAW_SEED,
                                dead_count: dead,
                                rebuild_floor: h.rebuild_floor,
                            },
                        )
                    },
                }
            },
        }
    }
}

} // verus!
