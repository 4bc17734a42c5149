//! How vector indexes keep in step with the tables they are on.
use vstd::prelude::*;
use crate::conn::{torn_down, TxnV};
use crate::ddl::catalog_after;
use crate::env::EnvV;
use crate::error::ErrorV;
use crate::graph::{
    graph_ok, grown, law_search_is_bounded, mapped, marked_dead, present, searched, taken_out,
    GraphV,
};
use crate::graphs::{
    dropped, ended_in, followed, graph_names, graphs_off, graphs_ok, rid_of, taken_from,
};
use crate::group_commit::{dropped_from, gone_from, settled, traces, MemberV};
use crate::mvcc::{
    committed, discarded_from, discards, removals_from, revived, rolled_back, saved_for,
    undone_from, undone_table, PendingSetV,
};
use crate::store::{
    index_names, indexes_off, lemma_name_pos, store_ok, table_names, table_pos, StoreV, TableV,
    VersionV,
};
use crate::text::same_name;
use crate::upkeep::marked_from;
use crate::vector::IndexDefV;
use crate::wal::WalOpV;

verus! {

// ---- definitions ----------------------------------------------------------------------------------

pub open spec fn defs_of(gs: Seq<GraphV>) -> Seq<IndexDefV> {
    Seq::new(gs.len(), |i: int| gs[i].def)
}

proof fn lemma_off_defs(gs: Seq<GraphV>, table: Seq<char>)
    ensures
        defs_of(graphs_off(gs, table)) == indexes_off(defs_of(gs), table),
    decreases gs.len(),
{
    let ds = defs_of(gs);
    if gs.len() == 0 {
        assert(defs_of(graphs_off(gs, table)) =~= Seq::<IndexDefV>::empty());
    } else {
        lemma_off_defs(gs.drop_last(), table);
        assert(defs_of(gs.drop_last()) =~= ds.drop_last());
        assert(ds.last() == gs.last().def);
        let rest = graphs_off(gs.drop_last(), table);
        assert(defs_of(rest.push(gs.last())) =~= defs_of(rest).push(gs.last().def));
    }
}

/// There is a graph for each index that is defined, and for no other, whatever
/// definitions take effect.
pub proof fn law_graphs_follow_definitions(s: StoreV, gs: Seq<GraphV>, op: WalOpV, env: EnvV)
    requires
        defs_of(gs) == s.indexes,
        catalog_after(s, op, env) is Ok,
    ensures
        defs_of(followed(gs, op)) == catalog_after(s, op, env)->Ok_0.indexes,
{
    assert(graph_names(gs) =~= index_names(s.indexes));
    match op {
        WalOpV::CreateIndex { def } => {
            lemma_name_pos(graph_names(gs), def.name, 0);
            assert(defs_of(followed(gs, op)) =~= catalog_after(s, op, env)->Ok_0.indexes);
        },
        WalOpV::DropIndex { name } => {
            lemma_name_pos(graph_names(gs), name, 0);
            assert(defs_of(followed(gs, op)) =~= catalog_after(s, op, env)->Ok_0.indexes);
        },
        WalOpV::DropTable { name } => {
            lemma_off_defs(gs, name);
        },
        _ => {},
    }
}

// ---- rows that a rollback removes -----------------------------------------------------------------

/// Whether the entries from `i` on name a version of a table.
pub open spec fn named_from(
    gone: Seq<(Seq<char>, Seq<u64>)>,
    table: Seq<char>,
    vid: u64,
    i: int,
) -> bool
    decreases gone.len() - i,
{
    if i < 0 || i >= gone.len() {
        false
    } else {
        (same_name(table, gone[i].0) && gone[i].1.contains(vid)) || named_from(
            gone,
            table,
            vid,
            i + 1,
        )
    }
}

proof fn lemma_taken_out(g: GraphV, gone: u64, vid: u64)
    requires
        mapped(g.nodes, g.by_vid),
    ensures
        mapped(taken_out(g, gone).nodes, taken_out(g, gone).by_vid),
        taken_out(g, gone).def == g.def,
        taken_out(g, gone).by_vid.contains_key(vid) <==> g.by_vid.contains_key(vid) && vid != gone,
{
    let m = taken_out(g, gone);
    if g.by_vid.contains_key(gone) {
        let at = g.by_vid[gone] as int;
        assert forall|i: int| 0 <= i < m.nodes.len() && !(#[trigger] m.nodes[i]).removed implies
            m.by_vid.contains_key(m.nodes[i].vid) && m.by_vid[m.nodes[i].vid] == i by {
            assert(!g.nodes[i].removed);
        }
    }
}

proof fn lemma_taken_from(g: GraphV, vids: Seq<u64>, i: int, vid: u64)
    requires
        mapped(g.nodes, g.by_vid),
        0 <= i <= vids.len(),
    ensures
        mapped(taken_from(g, vids, i).nodes, taken_from(g, vids, i).by_vid),
        taken_from(g, vids, i).def == g.def,
        taken_from(g, vids, i).by_vid.contains_key(vid) <==> g.by_vid.contains_key(vid)
            && !vids.skip(i).contains(vid),
    decreases vids.len() - i,
{
    let rest = vids.skip(i);
    if i < vids.len() {
        lemma_taken_out(g, vids[i], vid);
        lemma_taken_from(taken_out(g, vids[i]), vids, i + 1, vid);
        let less = vids.skip(i + 1);
        assert(rest[0] == vids[i]);
        if rest.contains(vid) && vid != vids[i] {
            let j = choose|j: int| 0 <= j < rest.len() && rest[j] == vid;
            assert(less[j - 1] == vid);
        }
        if less.contains(vid) {
            let j = choose|j: int| 0 <= j < less.len() && less[j] == vid;
            assert(rest[j + 1] == vid);
        }
    } else {
        assert(rest.len() == 0);
    }
}

proof fn lemma_rid_of(g: GraphV, gone: Seq<(Seq<char>, Seq<u64>)>, i: int, vid: u64)
    requires
        mapped(g.nodes, g.by_vid),
        0 <= i <= gone.len(),
    ensures
        mapped(rid_of(g, gone, i).nodes, rid_of(g, gone, i).by_vid),
        rid_of(g, gone, i).def == g.def,
        rid_of(g, gone, i).by_vid.contains_key(vid) <==> g.by_vid.contains_key(vid) && !named_from(
            gone,
            g.def.table,
            vid,
            i,
        ),
    decreases gone.len() - i,
{
    if i < gone.len() {
        if same_name(g.def.table, gone[i].0) {
            lemma_taken_from(g, gone[i].1, 0, vid);
            assert(gone[i].1.skip(0) =~= gone[i].1);
            lemma_rid_of(taken_from(g, gone[i].1, 0), gone, i + 1, vid);
        } else {
            lemma_rid_of(g, gone, i + 1, vid);
        }
    }
}

/// Of the rows that are rolled back a graph lets go of just those of its own table;
/// where there are none it stays as it was.
pub proof fn law_drops_are_exact(
    gs: Seq<GraphV>,
    gone: Seq<(Seq<char>, Seq<u64>)>,
    g: int,
    vid: u64,
)
    requires
        graphs_ok(gs),
        0 <= g < gs.len(),
    ensures
        dropped(gs, gone)[g].by_vid.contains_key(vid) <==> gs[g].by_vid.contains_key(vid)
            && !named_from(gone, gs[g].def.table, vid, 0),
        dropped(gs, gone)[g].def == gs[g].def,
        (forall|i: int| 0 <= i < gone.len() ==> !same_name(gs[g].def.table, #[trigger] gone[i].0))
            ==> dropped(gs, gone)[g] == gs[g],
{
    assert(graph_ok(gs[g]));
    lemma_rid_of(gs[g], gone, 0, vid);
    if forall|i: int| 0 <= i < gone.len() ==> !same_name(gs[g].def.table, #[trigger] gone[i].0) {
        lemma_untouched(gs[g], gone, 0);
    }
}

proof fn lemma_untouched(g: GraphV, gone: Seq<(Seq<char>, Seq<u64>)>, i: int)
    requires
        0 <= i <= gone.len(),
        forall|j: int| 0 <= j < gone.len() ==> !same_name(g.def.table, #[trigger] gone[j].0),
    ensures
        rid_of(g, gone, i) == g,
    decreases gone.len() - i,
{
    if i < gone.len() {
        assert(!same_name(g.def.table, gone[i].0));
        lemma_untouched(g, gone, i + 1);
    }
}

/// Whether a rollback removes a version of a table.
pub open spec fn discarded_in(
    t: TableV,
    owner: u64,
    saved: Seq<PendingSetV>,
    vid: u64,
) -> bool {
    exists|r: int|
        0 <= r < t.rows.len() && (#[trigger] t.rows[r]).vid == vid && discards(
            t.rows[r],
            owner,
            saved_for(saved, t.schema.name, 0).inserted,
        )
}

proof fn lemma_discarded(
    rows: Seq<VersionV>,
    owner: u64,
    inserted: Seq<u64>,
    i: int,
    acc: Seq<u64>,
    vid: u64,
)
    requires
        0 <= i <= rows.len(),
    ensures
        discarded_from(rows, owner, inserted, i, acc).contains(vid) <==> acc.contains(vid)
            || exists|r: int|
            i <= r < rows.len() && (#[trigger] rows[r]).vid == vid && discards(
                rows[r],
                owner,
                inserted,
            ),
    decreases rows.len() - i,
{
    if i < rows.len() {
        if discards(rows[i], owner, inserted) {
            let more = acc.push(rows[i].vid);
            lemma_discarded(rows, owner, inserted, i + 1, more, vid);
            assert(more.contains(vid) <==> acc.contains(vid) || rows[i].vid == vid) by {
                assert(more[acc.len() as int] == rows[i].vid);
                if acc.contains(vid) {
                    let j = choose|j: int| 0 <= j < acc.len() && acc[j] == vid;
                    assert(more[j] == vid);
                }
            }
        } else {
            lemma_discarded(rows, owner, inserted, i + 1, acc, vid);
        }
    }
}

/// Whether a rollback removes a version of a table of that name among those from `i` on.
spec fn discarded_of(
    ts: Seq<TableV>,
    owner: u64,
    saved: Seq<PendingSetV>,
    i: int,
    table: Seq<char>,
    vid: u64,
) -> bool {
    exists|t: int|
        i <= t < ts.len() && same_name(table, (#[trigger] ts[t]).schema.name) && discarded_in(
            ts[t],
            owner,
            saved,
            vid,
        )
}

proof fn lemma_named_push(
    gone: Seq<(Seq<char>, Seq<u64>)>,
    e: (Seq<char>, Seq<u64>),
    table: Seq<char>,
    vid: u64,
    i: int,
)
    requires
        0 <= i <= gone.len(),
    ensures
        named_from(gone.push(e), table, vid, i) <==> named_from(gone, table, vid, i) || (
        same_name(table, e.0) && e.1.contains(vid)),
    decreases gone.len() - i,
{
    if i < gone.len() {
        lemma_named_push(gone, e, table, vid, i + 1);
    } else {
        assert(gone.push(e)[i] == e);
        assert(!named_from(gone.push(e), table, vid, i + 1));
    }
}

proof fn lemma_removals(
    ts: Seq<TableV>,
    owner: u64,
    saved: Seq<PendingSetV>,
    i: int,
    acc: Seq<(Seq<char>, Seq<u64>)>,
    table: Seq<char>,
    vid: u64,
)
    requires
        0 <= i <= ts.len(),
    ensures
        named_from(removals_from(ts, owner, saved, i, acc), table, vid, 0) <==> named_from(
            acc,
            table,
            vid,
            0,
        ) || discarded_of(ts, owner, saved, i, table, vid),
    decreases ts.len() - i,
{
    if i < ts.len() {
        let p = saved_for(saved, ts[i].schema.name, 0);
        let vids = discarded_from(ts[i].rows, owner, p.inserted, 0, Seq::empty());
        let more = acc.push((ts[i].schema.name, vids));
        lemma_discarded(ts[i].rows, owner, p.inserted, 0, Seq::empty(), vid);
        assert(vids.contains(vid) <==> discarded_in(ts[i], owner, saved, vid));
        lemma_named_push(acc, (ts[i].schema.name, vids), table, vid, 0);
        lemma_removals(ts, owner, saved, i + 1, more, table, vid);
        lemma_removals(ts, owner, saved, i + 1, acc, table, vid);
        assert(discarded_of(ts, owner, saved, i, table, vid) <==> (same_name(
            table,
            ts[i].schema.name,
        ) && discarded_in(ts[i], owner, saved, vid)) || discarded_of(
            ts,
            owner,
            saved,
            i + 1,
            table,
            vid,
        ));
    }
}

proof fn lemma_taken_by_rollback(
    s: StoreV,
    owner: u64,
    saved: Seq<PendingSetV>,
    g: GraphV,
    t: int,
    vid: u64,
)
    requires
        store_ok(s),
        mapped(g.nodes, g.by_vid),
        0 <= t < s.tables.len(),
        same_name(g.def.table, s.tables[t].schema.name),
    ensures
        ({
            let gone = removals_from(s.tables, owner, saved, 0, Seq::empty());
            rid_of(g, gone, 0).by_vid.contains_key(vid) <==> g.by_vid.contains_key(vid)
                && !discarded_in(s.tables[t], owner, saved, vid)
        }),
{
    let gone = removals_from(s.tables, owner, saved, 0, Seq::empty());
    let table = g.def.table;
    lemma_rid_of(g, gone, 0, vid);
    lemma_removals(s.tables, owner, saved, 0, Seq::empty(), table, vid);
    assert forall|u: int|
        0 <= u < s.tables.len() && same_name(table, (#[trigger] s.tables[u]).schema.name) implies u
        == t by {
        let names = table_names(s.tables);
        assert(names[u] == s.tables[u].schema.name && names[t] == s.tables[t].schema.name);
    }
    assert(discarded_of(s.tables, owner, saved, 0, table, vid) <==> discarded_in(
        s.tables[t],
        owner,
        saved,
        vid,
    ));
}

/// After a rollback, of everything or to a savepoint, a graph holds just the versions
/// that it held before, without those that the rollback removed from its table. What
/// was removed from another table, under the same number too, leaves it alone.
pub proof fn law_rollback_takes_out_its_rows(
    s: StoreV,
    owner: u64,
    saved: Seq<PendingSetV>,
    gs: Seq<GraphV>,
    g: int,
    t: int,
    vid: u64,
)
    requires
        store_ok(s),
        graphs_ok(gs),
        0 <= g < gs.len(),
        0 <= t < s.tables.len(),
        same_name(gs[g].def.table, s.tables[t].schema.name),
    ensures
        ({
            let gone = removals_from(s.tables, owner, saved, 0, Seq::empty());
            dropped(gs, gone)[g].by_vid.contains_key(vid) <==> gs[g].by_vid.contains_key(vid)
                && !discarded_in(s.tables[t], owner, saved, vid)
        }),
{
    assert(graph_ok(gs[g]));
    lemma_taken_by_rollback(s, owner, saved, gs[g], t, vid);
}

/// No search of an index gives a version that a rollback removed from its table.
pub proof fn law_rolled_back_rows_are_not_found(
    s: StoreV,
    owner: u64,
    saved: Seq<PendingSetV>,
    gs: Seq<GraphV>,
    g: int,
    t: int,
    vid: u64,
    k: Map<u128, u64>,
    want: usize,
    ef: Option<usize>,
)
    requires
        store_ok(s),
        graphs_ok(gs),
        0 <= g < gs.len(),
        0 <= t < s.tables.len(),
        same_name(gs[g].def.table, s.tables[t].schema.name),
        discarded_in(s.tables[t], owner, saved, vid),
    ensures
        ({
            let gone = removals_from(s.tables, owner, saved, 0, Seq::empty());
            searched(dropped(gs, gone)[g], k, want, ef) matches Ok(hits) ==> forall|i: int|
                0 <= i < hits.len() ==> (#[trigger] hits[i]).0 != vid
        }),
{
    let gone = removals_from(s.tables, owner, saved, 0, Seq::empty());
    let m = dropped(gs, gone)[g];
    law_rollback_takes_out_its_rows(s, owner, saved, gs, g, t, vid);
    assert(graph_ok(gs[g]));
    lemma_rid_of(gs[g], gone, 0, vid);
    match searched(m, k, want, ef) {
        Ok(hits) => {
            law_search_is_bounded(m, k, want, ef);
            assert forall|i: int| 0 <= i < hits.len() implies (#[trigger] hits[i]).0 != vid by {
                if hits[i].0 == vid {
                    assert(present(m.nodes, vid));
                }
            }
        },
        Err(_) => {},
    }
}

// ---- every hit is a row ---------------------------------------------------------------------------

/// Whether there is a version of that number.
pub open spec fn holds_version(rows: Seq<VersionV>, vid: u64) -> bool {
    exists|r: int| 0 <= r < rows.len() && (#[trigger] rows[r]).vid == vid
}

/// Whether every version in a graph is one of its table.
pub open spec fn in_step(s: StoreV, g: GraphV) -> bool {
    match table_pos(s, g.def.table) {
        Some(t) => forall|vid: u64| #[trigger]
            g.by_vid.contains_key(vid) ==> holds_version(s.tables[t].rows, vid),
        None => true,
    }
}

proof fn lemma_undone_holds(
    rows: Seq<VersionV>,
    owner: u64,
    p: PendingSetV,
    i: int,
    acc: Seq<VersionV>,
    vid: u64,
)
    requires
        0 <= i <= rows.len(),
        holds_version(acc, vid) || exists|r: int|
            i <= r < rows.len() && (#[trigger] rows[r]).vid == vid && !discards(
                rows[r],
                owner,
                p.inserted,
            ),
    ensures
        holds_version(undone_from(rows, owner, p.inserted, p.deleted, i, acc), vid),
    decreases rows.len() - i,
{
    if i < rows.len() {
        if discards(rows[i], owner, p.inserted) {
            lemma_undone_holds(rows, owner, p, i + 1, acc, vid);
        } else {
            let more = acc.push(revived(rows[i], owner, p.deleted));
            assert(more[acc.len() as int].vid == rows[i].vid);
            if holds_version(acc, vid) {
                let r = choose|r: int| 0 <= r < acc.len() && (#[trigger] acc[r]).vid == vid;
                assert(more[r].vid == vid);
            }
            lemma_undone_holds(rows, owner, p, i + 1, more, vid);
        }
    }
}

proof fn lemma_rollback_in_step(s: StoreV, owner: u64, saved: Seq<PendingSetV>, g: GraphV)
    requires
        store_ok(s),
        mapped(g.nodes, g.by_vid),
        in_step(s, g),
    ensures
        in_step(
            rolled_back(s, owner, saved),
            rid_of(g, removals_from(s.tables, owner, saved, 0, Seq::empty()), 0),
        ),
        store_ok(rolled_back(s, owner, saved)),
{
    let gone = removals_from(s.tables, owner, saved, 0, Seq::empty());
    let m = rid_of(g, gone, 0);
    let after = rolled_back(s, owner, saved);
    let table = g.def.table;
    lemma_rid_of(g, gone, 0, 0);
    assert(table_names(after.tables) =~= table_names(s.tables));
    lemma_name_pos(table_names(s.tables), table, 0);
    match table_pos(s, table) {
        None => {},
        Some(t) => {
            assert(after.tables[t] == undone_table(s.tables[t], owner, saved));
            assert forall|vid: u64| #[trigger] m.by_vid.contains_key(vid) implies holds_version(
                after.tables[t].rows,
                vid,
            ) by {
                let p = saved_for(saved, s.tables[t].schema.name, 0);
                lemma_taken_by_rollback(s, owner, saved, g, t, vid);
                assert(g.by_vid.contains_key(vid));
                let rows = s.tables[t].rows;
                let r = choose|r: int| 0 <= r < rows.len() && (#[trigger] rows[r]).vid == vid;
                assert(!discards(rows[r], owner, p.inserted));
                lemma_undone_holds(rows, owner, p, 0, Seq::empty(), vid);
            }
        },
    }
}

/// A rollback, of everything or to a savepoint, leaves indexes and tables in step: each
/// version that a graph holds is still one of its table.
pub proof fn law_rollback_keeps_in_step(
    s: StoreV,
    owner: u64,
    saved: Seq<PendingSetV>,
    gs: Seq<GraphV>,
    g: int,
)
    requires
        store_ok(s),
        graphs_ok(gs),
        0 <= g < gs.len(),
        in_step(s, gs[g]),
    ensures
        in_step(
            rolled_back(s, owner, saved),
            dropped(gs, removals_from(s.tables, owner, saved, 0, Seq::empty()))[g],
        ),
{
    assert(graph_ok(gs[g]));
    lemma_rollback_in_step(s, owner, saved, gs[g]);
}

/// So does the end of a transaction that is given up, as when its connection closes.
pub proof fn law_giving_up_keeps_in_step(s: StoreV, t: TxnV, gs: Seq<GraphV>, g: int)
    requires
        store_ok(s),
        graphs_ok(gs),
        0 <= g < gs.len(),
        in_step(s, gs[g]),
    ensures
        in_step(torn_down(s, t).0, dropped(gs, torn_down(s, t).1)[g]),
{
    assert(graph_ok(gs[g]));
    lemma_rollback_in_step(s, t.owner, Seq::empty(), gs[g]);
}

proof fn lemma_rid_of_both(
    g: GraphV,
    a: Seq<(Seq<char>, Seq<u64>)>,
    b: Seq<(Seq<char>, Seq<u64>)>,
    i: int,
)
    requires
        mapped(g.nodes, g.by_vid),
        0 <= i <= a.len(),
    ensures
        rid_of(g, a + b, i) == rid_of(rid_of(g, a, i), b, 0),
    decreases a.len() - i,
{
    if i < a.len() {
        assert((a + b)[i] == a[i]);
        if same_name(g.def.table, a[i].0) {
            lemma_taken_from(g, a[i].1, 0, 0);
            lemma_rid_of_both(taken_from(g, a[i].1, 0), a, b, i + 1);
        } else {
            lemma_rid_of_both(g, a, b, i + 1);
        }
    } else {
        lemma_rid_of_behind(g, a, b, 0);
    }
}

proof fn lemma_rid_of_behind(
    g: GraphV,
    a: Seq<(Seq<char>, Seq<u64>)>,
    b: Seq<(Seq<char>, Seq<u64>)>,
    i: int,
)
    requires
        0 <= i <= b.len(),
    ensures
        rid_of(g, a + b, a.len() + i) == rid_of(g, b, i),
    decreases b.len() - i,
{
    if i < b.len() {
        assert((a + b)[a.len() + i] == b[i]);
        if same_name(g.def.table, b[i].0) {
            lemma_rid_of_behind(taken_from(g, b[i].1, 0), a, b, i + 1);
        } else {
            lemma_rid_of_behind(g, a, b, i + 1);
        }
    }
}

proof fn lemma_failed_in_step(
    s: StoreV,
    b: Seq<MemberV>,
    i: int,
    acc: Seq<(Seq<char>, Seq<u64>)>,
    g: GraphV,
)
    requires
        0 <= i <= b.len(),
        store_ok(s),
        mapped(g.nodes, g.by_vid),
        in_step(s, rid_of(g, acc, 0)),
    ensures
        in_step(dropped_from(s, b, i), rid_of(g, gone_from(s, b, i, acc), 0)),
    decreases b.len() - i,
{
    if i < b.len() {
        let rem = removals_from(s.tables, b[i].owner, Seq::empty(), 0, Seq::empty());
        lemma_rid_of(g, acc, 0, 0);
        lemma_rid_of_both(g, acc, rem, 0);
        lemma_rollback_in_step(s, b[i].owner, Seq::empty(), rid_of(g, acc, 0));
        lemma_failed_in_step(
            rolled_back(s, b[i].owner, Seq::empty()),
            b,
            i + 1,
            acc + rem,
            g,
        );
    }
}

/// And so does a batch that could not be made durable.
pub proof fn law_failed_batch_keeps_in_step(
    s: StoreV,
    b: Seq<MemberV>,
    e: ErrorV,
    gs: Seq<GraphV>,
    g: int,
)
    requires
        store_ok(s),
        graphs_ok(gs),
        0 <= g < gs.len(),
        in_step(s, gs[g]),
    ensures
        in_step(settled(s, b, Err(e)), dropped(gs, traces(s, b, Err(e)))[g]),
{
    assert(graph_ok(gs[g]));
    lemma_failed_in_step(s, b, 0, Seq::empty(), gs[g]);
}

proof fn lemma_marks_keep_versions(g: GraphV, vids: Seq<u64>, i: int)
    ensures
        marked_from(g, vids, i).by_vid == g.by_vid,
        marked_from(g, vids, i).def == g.def,
    decreases vids.len() - i,
{
    if 0 <= i < vids.len() {
        lemma_marks_keep_versions(marked_dead(g, vids[i]), vids, i + 1);
    }
}

/// A commit keeps indexes and tables in step: what it deleted stays, for older readers.
pub proof fn law_commit_keeps_in_step(
    s: StoreV,
    owner: u64,
    lsn: u64,
    g: GraphV,
    table: Seq<char>,
    vids: Seq<u64>,
)
    requires
        in_step(s, g),
    ensures
        in_step(committed(s, owner, lsn), ended_in(g, table, vids)),
        ended_in(g, table, vids).by_vid == g.by_vid,
{
    let after = committed(s, owner, lsn);
    lemma_marks_keep_versions(g, vids, 0);
    assert(table_names(after.tables) =~= table_names(s.tables));
    lemma_name_pos(table_names(s.tables), g.def.table, 0);
    match table_pos(s, g.def.table) {
        None => {},
        Some(t) => {
            let rows = s.tables[t].rows;
            let now = after.tables[t].rows;
            assert forall|vid: u64| #[trigger] g.by_vid.contains_key(vid) implies holds_version(
                now,
                vid,
            ) by {
                let r = choose|r: int| 0 <= r < rows.len() && (#[trigger] rows[r]).vid == vid;
                assert(now[r].vid == vid);
            }
        },
    }
}

/// A graph that takes up a version of its table keeps in step with it.
pub proof fn law_growth_keeps_in_step(
    s: StoreV,
    g: GraphV,
    t: int,
    vid: u64,
    vector: Seq<u32>,
    level: usize,
    k: Map<u128, u64>,
)
    requires
        in_step(s, g),
        table_pos(s, g.def.table) == Some(t),
        holds_version(s.tables[t].rows, vid),
    ensures
        grown(g, vid, vector, level, k) matches Ok(more) ==> in_step(s, more),
{
}

/// A graph in step with its table gives versions of that table alone.
pub proof fn law_hits_are_rows(
    s: StoreV,
    g: GraphV,
    t: int,
    k: Map<u128, u64>,
    want: usize,
    ef: Option<usize>,
)
    requires
        graph_ok(g),
        in_step(s, g),
        table_pos(s, g.def.table) == Some(t),
    ensures
        searched(g, k, want, ef) matches Ok(hits) ==> forall|i: int|
            0 <= i < hits.len() ==> holds_version(s.tables[t].rows, (#[trigger] hits[i]).0),
{
    match searched(g, k, want, ef) {
        Ok(hits) => {
            law_search_is_bounded(g, k, want, ef);
            assert forall|i: int| 0 <= i < hits.len() implies holds_version(
                s.tables[t].rows,
                (#[trigger] hits[i]).0,
            ) by {
                assert(present(g.nodes, hits[i].0));
                assert(g.by_vid.contains_key(hits[i].0));
            }
        },
        Err(_) => {},
    }
}

} // verus!
