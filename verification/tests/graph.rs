use twill::graph::{Known, Scored, VectorIndex, MAX_LEVEL};
use twill::graphs::Graphs;
use twill::host::index_page_region;
use twill::pages::{is_current, parse_page_header, PAGE_CAP};
use twill::vector::{IndexDef, IndexParams, Metric};
use twill::wal::WalOp;

fn l2(a: &[u32], b: &[u32]) -> u64 {
    let d = a
        .iter()
        .zip(b)
        .map(|(x, y)| {
            let e = f32::from_bits(*x) - f32::from_bits(*y);
            e * e
        })
        .sum::<f32>()
        .sqrt();
    (d as f64).to_bits()
}

fn learn(ix: &VectorIndex, known: &mut Known, want: &[(usize, usize)], query: &[u32]) {
    for &(a, b) in want {
        let x = if a < ix.nodes.len() { ix.nodes[a].vector.as_slice() } else { query };
        let y = if b < ix.nodes.len() { ix.nodes[b].vector.as_slice() } else { query };
        known.learn(a, b, l2(x, y));
    }
}

fn level_of(draw: u64, m: usize) -> usize {
    let u = ((draw >> 11) as f64 / (1u64 << 53) as f64).max(1e-12);
    let ml = 1.0 / (m.max(2) as f64).ln();
    ((-u.ln() * ml).floor() as usize).min(MAX_LEVEL)
}

fn insert(ix: &mut VectorIndex, vid: u64, vector: Vec<f32>) {
    let bits: Vec<u32> = vector.iter().map(|x| x.to_bits()).collect();
    let level = level_of(ix.draw(), ix.def.params.m);
    let mut known = Known::new();
    loop {
        match ix.insert(vid, bits.clone(), level, &known) {
            Ok(()) => return,
            Err(want) => learn(ix, &mut known, &want, &bits),
        }
    }
}

fn search(ix: &VectorIndex, q: &[f32], k: usize, ef: Option<usize>) -> Vec<(u64, u64)> {
    let bits: Vec<u32> = q.iter().map(|x| x.to_bits()).collect();
    let mut known = Known::new();
    loop {
        match ix.search(&known, k, ef) {
            Ok(v) => return v,
            Err(want) => learn(ix, &mut known, &want, &bits),
        }
    }
}

fn def() -> IndexDef {
    IndexDef {
        name: "t_e".to_string(),
        table: "t".to_string(),
        column: "e".to_string(),
        params: IndexParams { metric: Metric::L2, ..IndexParams::default() },
    }
}

fn idx_with(n: usize, dim: usize) -> VectorIndex {
    let mut ix = VectorIndex::new(def());
    for i in 0..n {
        let f = i as f32;
        insert(&mut ix, i as u64 + 1, vec![f, f * 0.5, dim as f32 - f]);
    }
    ix
}

#[test]
fn page_round_trip_preserves_search() {
    let ix = idx_with(200, 3);
    let q = vec![17.0, 8.5, -14.0];
    let before = search(&ix, &q, 5, None);
    let frames = ix.to_page_frames(42).expect("serializes");
    // Every frame respects the page budget.
    for f in &frames {
        assert!(f.len() <= PAGE_CAP, "frame {} > PAGE_CAP", f.len());
    }
    let hdr = parse_page_header(&frames[0]).unwrap();
    assert_eq!(hdr.reflected_lsn, 42);
    assert_eq!(hdr.name, "t_e");
    assert_eq!(hdr.node_count, 200);
    let restored = VectorIndex::from_page_frames(ix.def.clone(), &frames).expect("restores");
    let after = search(&restored, &q, 5, None);
    assert_eq!(before, after, "page round-trip changes nothing");
    assert_eq!(restored.len(), ix.len());
}

#[test]
fn ef_search_override_widens_search() {
    // A query-time ef override is honored independently of the index default.
    let ix = idx_with(300, 3);
    let q = vec![100.0, 50.0, -97.0];
    let narrow = search(&ix, &q, 1, Some(1));
    let wide = search(&ix, &q, 1, Some(256));
    assert_eq!(narrow.len(), 1);
    assert_eq!(wide.len(), 1);
}

#[test]
fn empty_index_has_no_checkpoint() {
    let ix = idx_with(0, 3);
    assert!(ix.to_page_frames(1).is_none());
}

#[test]
fn mark_dead_tracks_density_and_maintenance() {
    let mut ix = idx_with(100, 3);
    assert_eq!(ix.live_len(), 100);
    assert!(!ix.needs_maintenance());
    for vid in 1..=30u64 {
        ix.mark_dead(vid);
    }
    assert_eq!(ix.len() - ix.live_len(), 30);
    assert_eq!(ix.live_len(), 70);
    assert!(ix.needs_maintenance(), "30% dead crosses the threshold");
    // Idempotent.
    ix.mark_dead(1);
    assert_eq!(ix.live_len(), 70);
}

#[test]
fn nearest_come_first() {
    let ix = idx_with(50, 3);
    let hits = search(&ix, &[10.1, 5.05, -7.1], 3, None);
    let vids: Vec<u64> = hits.iter().map(|h| h.0).collect();
    assert_eq!(vids, vec![11, 12, 10]);
    let dists: Vec<f64> = hits.iter().map(|h| f64::from_bits(h.1)).collect();
    assert!(dists[0] <= dists[1] && dists[1] <= dists[2]);
    assert_eq!(search(&ix, &[0.0, 0.0, 3.0], 0, None), vec![]);
}

#[test]
fn a_removed_vector_is_not_found() {
    let mut ix = idx_with(20, 3);
    assert_eq!(search(&ix, &[4.0, 2.0, -1.0], 1, None)[0].0, 5);
    ix.remove(5);
    assert_eq!(ix.len(), 19);
    assert!(search(&ix, &[4.0, 2.0, -1.0], 20, None).iter().all(|h| h.0 != 5));
    // A version that is deleted for new readers is still found.
    ix.mark_dead(7);
    assert!(search(&ix, &[4.0, 2.0, -1.0], 20, None).iter().any(|h| h.0 == 7));
}

#[test]
fn a_version_is_added_once() {
    let mut ix = idx_with(3, 3);
    let draw = ix.draw();
    insert(&mut ix, 2, vec![9.0, 9.0, 9.0]);
    assert_eq!(ix.len(), 3);
    assert_eq!(ix.draw(), draw);
}

#[test]
fn missing_distances_are_named_and_nothing_changes() {
    let mut ix = VectorIndex::new(def());
    let none = Known::new();
    assert!(ix.insert(1, vec![0], 0, &none).is_ok());
    assert_eq!(ix.insert(2, vec![1], 0, &none), Err(vec![(1, 0)]));
    assert_eq!(ix.len(), 1);
    let mut known = Known::new();
    known.learn(1, 0, 2.0f64.to_bits());
    assert_eq!(known.get(1, 0), Some(2.0f64.to_bits()));
    assert_eq!(known.get(0, 1), None);
    assert!(ix.insert(2, vec![1], 0, &known).is_ok());
    assert_eq!(ix.search(&none, 1, None), Err(vec![(2, 0)]));
}

#[test]
fn draws_follow_from_the_seed() {
    let ix = VectorIndex::new(def());
    let mut state: u64 = 0x243F_6A88_85A3_08D3;
    state = state.wrapping_add(0x9E37_79B9_7F4A_7C15);
    let mut z = state;
    z = (z ^ (z >> 30)).wrapping_mul(0xBF58_476D_1CE4_E5B9);
    z = (z ^ (z >> 27)).wrapping_mul(0x94D0_49BB_1331_11EB);
    assert_eq!(ix.draw(), z ^ (z >> 31));
}

#[test]
fn garbled_pages_are_refused() {
    let ix = idx_with(120, 3);
    let frames = ix.to_page_frames(7).unwrap();
    assert!(frames.len() > 2);
    assert!(VectorIndex::from_page_frames(def(), &vec![]).is_none());
    assert!(VectorIndex::from_page_frames(def(), &frames[..1].to_vec()).is_none());
    let mut other = def();
    other.params.metric = Metric::Cosine;
    assert!(VectorIndex::from_page_frames(other, &frames).is_none());
    let mut bad = frames.clone();
    bad[0][0] = b'X';
    assert!(parse_page_header(&bad[0]).is_none());
    assert!(VectorIndex::from_page_frames(def(), &bad).is_none());
    let mut cut = frames.clone();
    cut[1].truncate(40);
    assert!(VectorIndex::from_page_frames(def(), &cut).is_none());
    // A mark that the first page does not count.
    let mut marked = frames.clone();
    marked[1][4 + 8] = 2;
    assert!(VectorIndex::from_page_frames(def(), &marked).is_none());
}

#[test]
fn a_checkpoint_is_current_only_at_its_own_state() {
    let frames = idx_with(5, 3).to_page_frames(9).unwrap();
    let h = parse_page_header(&frames[0]).unwrap();
    assert!(is_current(&h, "T_E", 9));
    assert!(!is_current(&h, "t_e", 10));
    assert!(!is_current(&h, "other", 9));
    assert_eq!(h.dim, 3);
    assert_eq!(h.metric, Metric::L2);
    assert_eq!(h.num_body_pages + 1, frames.len());
}

#[test]
fn page_regions_ignore_case_and_lie_high() {
    assert_eq!(index_page_region("Items_E"), index_page_region("items_e"));
    assert_ne!(index_page_region("a"), index_page_region("b"));
    // FNV-1a of "a" is 0xaf63dc4c8601ec8c.
    assert_eq!(
        index_page_region("a"),
        (1u64 << 63) | ((0xaf63_dc4c_8601_ec8c_u64 & 0xFF_FFFF_FFFF) << 23)
    );
}

#[test]
fn scores_are_plain_values() {
    let s = Scored { dist: 1.5f64.to_bits(), idx: 4 };
    assert_eq!(s, Scored { dist: 0x3FF8_0000_0000_0000, idx: 4 });
}

#[test]
fn a_first_page_is_known_by_its_bytes() {
    let frames = idx_with(40, 3).to_page_frames(11).unwrap();
    let first = frames[0].clone();
    let hdr = parse_page_header(&first).unwrap();
    assert_eq!(hdr.reflected_lsn, 11);
    assert_eq!(hdr.num_body_pages + 1, frames.len());
    let mut padded = first.clone();
    padded.extend_from_slice(&[0, 7, 255]);
    let same = parse_page_header(&padded).unwrap();
    assert_eq!((same.reflected_lsn, same.name), (11, hdr.name));
    for k in 0..first.len() {
        assert!(parse_page_header(&first[..k]).is_none());
    }
    for i in 0..8 {
        let mut other = first.clone();
        other[i] ^= 1;
        assert!(parse_page_header(&other).is_none());
    }
}

#[test]
fn marked_and_removed_vectors_come_back_from_pages() {
    let mut ix = idx_with(80, 3);
    for vid in 1..=20u64 {
        ix.mark_dead(vid);
    }
    ix.remove(5);
    ix.remove(60);
    ix.set_rebuild_floor(3);
    let frames = ix.to_page_frames(4).unwrap();
    let back = VectorIndex::from_page_frames(def(), &frames).unwrap();
    assert_eq!((back.len(), back.live_len()), (78, 59));
    assert_eq!((ix.len(), ix.live_len()), (78, 59));
    assert_eq!(back.rebuild_floor(), 3);
    for q in [[1.0, 2.0, 3.0], [60.0, 30.0, -57.0]] {
        assert_eq!(search(&back, &q, 9, Some(40)), search(&ix, &q, 9, Some(40)));
    }
}

#[test]
fn a_search_gives_each_version_its_own_distance() {
    let ix = idx_with(60, 3);
    let q = [10.0f32, 5.0, -7.0];
    let hits = search(&ix, &q, 12, Some(60));
    let bits: Vec<u32> = q.iter().map(|x| x.to_bits()).collect();
    assert_eq!(hits.len(), 12);
    for (i, (vid, dist)) in hits.iter().enumerate() {
        assert_eq!(*dist, l2(&bits, &ix.nodes[ix.by_vid[vid]].vector));
        assert!(hits[..i].iter().all(|(other, d)| other != vid && f64::from_bits(*d) <= f64::from_bits(*dist)));
    }
}

fn on(name: &str, table: &str) -> IndexDef {
    IndexDef { name: name.to_string(), table: table.to_string(), ..def() }
}

fn gone(table: &str, vids: &[u64]) -> Vec<(String, Vec<u64>)> {
    vec![(table.to_string(), vids.to_vec())]
}

#[test]
fn rows_leave_the_graphs_of_their_table_alone() {
    let mut graphs = Graphs::new();
    for (name, table) in [("a", "t"), ("b", "u"), ("c", "T")] {
        graphs.follow(&WalOp::CreateIndex { def: on(name, table) });
        let at = graphs.find(name).unwrap();
        assert!(graphs.get(at).is_empty());
        for vid in [4u64, 5, 6] {
            let bits = vec![(vid as f32).to_bits()];
            let mut known = Known::new();
            while let Err(want) = graphs.grow(at, vid, bits.clone(), 0, &known) {
                learn(graphs.get(at), &mut known, &want, &bits);
            }
        }
    }
    graphs.drop_rows(&gone("t", &[5]));
    let found = |graphs: &Graphs, name: &str| {
        let mut vids: Vec<u64> =
            search(graphs.get(graphs.find(name).unwrap()), &[5.0], 9, Some(9))
                .into_iter()
                .map(|(vid, _)| vid)
                .collect();
        vids.sort();
        vids
    };
    assert_eq!(found(&graphs, "a"), [4, 6]);
    assert_eq!(found(&graphs, "b"), [4, 5, 6]);
    assert_eq!(found(&graphs, "C"), [4, 6]);

    // What a commit ended is still found, for older readers, and counted.
    assert!(graphs.end_rows("U", &vec![4]).is_empty());
    assert_eq!(found(&graphs, "b"), [4, 5, 6]);
    assert_eq!(graphs.get(graphs.find("b").unwrap()).live_len(), 2);
    assert_eq!(graphs.get(graphs.find("a").unwrap()).live_len(), 2);

    graphs.follow(&WalOp::DropTable { name: "t".to_string() });
    assert_eq!(graphs.len(), 1);
    graphs.follow(&WalOp::DropIndex { name: "B".to_string() });
    assert!(graphs.is_empty());
}

#[test]
fn worn_graphs_are_named() {
    let mut graphs = Graphs::new();
    graphs.put(idx_with(100, 3));
    graphs.put(VectorIndex::new(on("other", "t")));
    assert!(graphs.end_rows("t", &(1..=19).collect()).is_empty());
    assert!(graphs.end_rows("u", &(20..=60).collect()).is_empty());
    assert_eq!(graphs.end_rows("T", &vec![20]), ["t_e"]);
    graphs.put(VectorIndex::new(on("T_E", "t")));
    assert_eq!(graphs.len(), 2);
    assert!(graphs.get(graphs.find("t_e").unwrap()).is_empty());
}
