//! The vector indexes of a database: which of them a change of a table touches.
use vstd::prelude::*;
use crate::catalog::strings_view;
use crate::graph::{
    graph_ok, grew, grown, new_graph, taken_out, worn, GraphV, Known, MAX_LEVEL, VectorIndex,
};
use crate::mvcc::named_ids_view;
use crate::store::{
    distinct_names, lemma_name_pos, lemma_push_names, lemma_remove_names, lemma_update_names,
    name_pos,
};
use crate::text::{names_match, same_name};
use crate::upkeep::{mark_all, marked_from};
use crate::wal::{WalOp, WalOpV};

verus! {

/// The graphs of a database, one for each index.
pub struct Graphs {
    list: Vec<VectorIndex>,
}

pub open spec fn graphs_view(v: Seq<VectorIndex>) -> Seq<GraphV> {
    Seq::new(v.len(), |i: int| v[i]@)
}

impl View for Graphs {
    type V = Seq<GraphV>;

    closed spec fn view(&self) -> Seq<GraphV> {
        graphs_view(self.list@)
    }
}

pub open spec fn graph_names(gs: Seq<GraphV>) -> Seq<Seq<char>> {
    Seq::new(gs.len(), |i: int| gs[i].def.name)
}

/// Where the graph of an index is.
pub open spec fn graph_pos(gs: Seq<GraphV>, name: Seq<char>) -> Option<int> {
    name_pos(graph_names(gs), name, 0)
}

/// What holds of the graphs of every database: each is in order, and no two belong to
/// indexes of one name.
pub open spec fn graphs_ok(gs: Seq<GraphV>) -> bool {
    &&& distinct_names(graph_names(gs))
    &&& forall|i: int| 0 <= i < gs.len() ==> graph_ok(#[trigger] gs[i])
}

// ---- which graphs there are -----------------------------------------------------------------------

/// The graphs with one put in, in place of that of the same name.
pub open spec fn put_graph(gs: Seq<GraphV>, g: GraphV) -> Seq<GraphV> {
    match graph_pos(gs, g.def.name) {
        Some(i) => gs.update(i, g),
        None => gs.push(g),
    }
}

/// The graphs without that of an index.
pub open spec fn without_graph(gs: Seq<GraphV>, name: Seq<char>) -> Seq<GraphV> {
    match graph_pos(gs, name) {
        Some(i) => gs.remove(i),
        None => gs,
    }
}

/// The graphs that are not on a table.
pub open spec fn graphs_off(gs: Seq<GraphV>, table: Seq<char>) -> Seq<GraphV>
    decreases gs.len(),
{
    if gs.len() == 0 {
        Seq::empty()
    } else {
        let rest = graphs_off(gs.drop_last(), table);
        if same_name(gs.last().def.table, table) {
            rest
        } else {
            rest.push(gs.last())
        }
    }
}

/// The graphs once a definition took effect. A new one is empty at first.
pub open spec fn followed(gs: Seq<GraphV>, op: WalOpV) -> Seq<GraphV> {
    match op {
        WalOpV::CreateIndex { def } => put_graph(gs, new_graph(def)),
        WalOpV::DropIndex { name } => without_graph(gs, name),
        WalOpV::DropTable { name } => graphs_off(gs, name),
        _ => gs,
    }
}

proof fn lemma_put_ok(gs: Seq<GraphV>, g: GraphV)
    requires
        graphs_ok(gs),
        graph_ok(g),
    ensures
        graphs_ok(put_graph(gs, g)),
{
    let names = graph_names(gs);
    lemma_name_pos(names, g.def.name, 0);
    match graph_pos(gs, g.def.name) {
        Some(i) => {
            lemma_update_names(names, i, g.def.name);
            assert(graph_names(put_graph(gs, g)) =~= names.update(i, g.def.name));
        },
        None => {
            lemma_push_names(names, g.def.name);
            assert(graph_names(put_graph(gs, g)) =~= names.push(g.def.name));
        },
    }
}

proof fn lemma_off_ok(gs: Seq<GraphV>, table: Seq<char>)
    requires
        graphs_ok(gs),
    ensures
        graphs_ok(graphs_off(gs, table)),
        forall|j: int|
            0 <= j < graphs_off(gs, table).len() ==> exists|i: int|
                0 <= i < gs.len() && gs[i] == #[trigger] graphs_off(gs, table)[j],
    decreases gs.len(),
{
    if gs.len() > 0 {
        let head = gs.drop_last();
        let names = graph_names(gs);
        let off = graphs_off(head, table);
        assert(graphs_ok(head)) by {
            let hn = graph_names(head);
            assert forall|i: int, j: int|
                #![trigger hn[i], hn[j]]
                0 <= i < hn.len() && 0 <= j < hn.len() && same_name(hn[i], hn[j]) implies i == j by {
                assert(names[i] == hn[i] && names[j] == hn[j]);
            }
        }
        lemma_off_ok(head, table);
        assert forall|j: int| 0 <= j < graphs_off(gs, table).len() implies exists|i: int|
            0 <= i < gs.len() && gs[i] == #[trigger] graphs_off(gs, table)[j] by {
            if j < off.len() {
                let i = choose|i: int| 0 <= i < head.len() && head[i] == off[j];
                assert(gs[i] == graphs_off(gs, table)[j]);
            } else {
                assert(gs[gs.len() - 1] == graphs_off(gs, table)[j]);
            }
        }
        if !same_name(gs.last().def.table, table) {
            let on = graph_names(off);
            let n = gs.last().def.name;
            assert forall|j: int| 0 <= j < on.len() implies !same_name(#[trigger] on[j], n) by {
                let i = choose|i: int| 0 <= i < head.len() && head[i] == off[j];
                assert(names[i] == on[j]);
                assert(names[gs.len() - 1] == n);
            }
            lemma_push_names(on, n);
            assert(graph_names(graphs_off(gs, table)) =~= on.push(n));
        }
    }
}

// ---- rows that go -----------------------------------------------------------------------------------

/// A graph with the versions from `i` on taken out.
pub open spec fn taken_from(g: GraphV, vids: Seq<u64>, i: int) -> GraphV
    decreases vids.len() - i,
{
    if i < 0 || i >= vids.len() {
        g
    } else {
        taken_from(taken_out(g, vids[i]), vids, i + 1)
    }
}

/// A graph with the versions taken out that the entries from `i` on name of its table.
pub open spec fn rid_of(g: GraphV, gone: Seq<(Seq<char>, Seq<u64>)>, i: int) -> GraphV
    decreases gone.len() - i,
{
    if i < 0 || i >= gone.len() {
        g
    } else if same_name(g.def.table, gone[i].0) {
        rid_of(taken_from(g, gone[i].1, 0), gone, i + 1)
    } else {
        rid_of(g, gone, i + 1)
    }
}

/// The graphs once the rows of a rollback are out of them: each lets go of the
/// versions of its own table.
pub open spec fn dropped(gs: Seq<GraphV>, gone: Seq<(Seq<char>, Seq<u64>)>) -> Seq<GraphV> {
    Seq::new(gs.len(), |i: int| rid_of(gs[i], gone, 0))
}

/// A graph once a commit deleted versions of a table.
pub open spec fn ended_in(g: GraphV, table: Seq<char>, vids: Seq<u64>) -> GraphV {
    if same_name(g.def.table, table) {
        marked_from(g, vids, 0)
    } else {
        g
    }
}

/// The graphs once a commit deleted versions of a table.
pub open spec fn ended(gs: Seq<GraphV>, table: Seq<char>, vids: Seq<u64>) -> Seq<GraphV> {
    Seq::new(gs.len(), |i: int| ended_in(gs[i], table, vids))
}

/// The names of the first `n` graphs on a table that are worth compacting.
pub open spec fn worn_on(gs: Seq<GraphV>, table: Seq<char>, n: int) -> Seq<Seq<char>>
    decreases n,
{
    if n <= 0 || n > gs.len() {
        Seq::empty()
    } else if same_name(gs[n - 1].def.table, table) && worn(gs[n - 1]) {
        worn_on(gs, table, n - 1).push(gs[n - 1].def.name)
    } else {
        worn_on(gs, table, n - 1)
    }
}

fn take_rows(ix: &mut VectorIndex, vids: &Vec<u64>)
    requires
        graph_ok(old(ix)@),
    ensures
        final(ix)@ == taken_from(old(ix)@, vids@, 0),
        final(ix)@.def == old(ix)@.def,
        graph_ok(final(ix)@),
{
    let ghost g = ix@;
    let mut i: usize = 0;
    while i < vids.len()
        invariant
            i <= vids@.len(),
            graph_ok(ix@),
            ix@.def == g.def,
            taken_from(ix@, vids@, i as int) == taken_from(g, vids@, 0),
        decreases vids@.len() - i,
    {
        ix.remove(vids[i]);
        i += 1;
    }
}

fn let_go(ix: &mut VectorIndex, gone: &Vec<(String, Vec<u64>)>)
    requires
        graph_ok(old(ix)@),
    ensures
        final(ix)@ == rid_of(old(ix)@, named_ids_view(gone@), 0),
        final(ix)@.def == old(ix)@.def,
        graph_ok(final(ix)@),
{
    let ghost g = ix@;
    let ghost gv = named_ids_view(gone@);
    let mut i: usize = 0;
    while i < gone.len()
        invariant
            i <= gone@.len(),
            gv == named_ids_view(gone@),
            graph_ok(ix@),
            ix@.def == g.def,
            rid_of(ix@, gv, i as int) == rid_of(g, gv, 0),
        decreases gone@.len() - i,
    {
        assert(gv[i as int] == (gone@[i as int].0@, gone@[i as int].1@));
        if names_match(&ix.def.table, &gone[i].0) {
            take_rows(ix, &gone[i].1);
        }
        i += 1;
    }
}

proof fn lemma_marks_keep_def(g: GraphV, vids: Seq<u64>, i: int)
    ensures
        marked_from(g, vids, i).def == g.def,
    decreases vids.len() - i,
{
    if 0 <= i < vids.len() {
        lemma_marks_keep_def(crate::graph::marked_dead(g, vids[i]), vids, i + 1);
    }
}

impl Graphs {
    pub fn new() -> (r: Graphs)
        ensures
            r@ == Seq::<GraphV>::empty(),
            graphs_ok(r@),
    {
        let r = Graphs { list: Vec::new() };
        assert(r@ =~= Seq::<GraphV>::empty());
        r
    }

    pub fn len(&self) -> (r: usize)
        ensures
            r == self@.len(),
    {
        self.list.len()
    }

    pub fn is_empty(&self) -> (r: bool)
        ensures
            r == (self@.len() == 0),
    {
        self.list.len() == 0
    }

    /// Where the graph of an index is.
    pub fn find(&self, name: &str) -> (r: Option<usize>)
        ensures
            graph_pos(self@, name@) == (match r {
                Some(i) => Some(i as int),
                None => None,
            }),
            r matches Some(i) ==> i < self@.len(),
    {
        let ghost names = graph_names(self@);
        let mut i: usize = 0;
        while i < self.list.len()
            invariant
                i <= self.list@.len(),
                names == graph_names(self@),
                self@ == graphs_view(self.list@),
                name_pos(names, name@, i as int) == name_pos(names, name@, 0),
            decreases self.list@.len() - i,
        {
            assert(names[i as int] == self.list@[i as int]@.def.name);
            if names_match(&self.list[i].def.name, name) {
                return Some(i);
            }
            i += 1;
        }
        None
    }

    pub fn get(&self, at: usize) -> (r: &VectorIndex)
        requires
            at < self@.len(),
        ensures
            r@ == self@[at as int],
    {
        &self.list[at]
    }

    /// Put in a graph, in place of that of the same name.
    pub fn put(&mut self, ix: VectorIndex)
        requires
            graphs_ok(old(self)@),
            graph_ok(ix@),
        ensures
            final(self)@ == put_graph(old(self)@, ix@),
            graphs_ok(final(self)@),
    {
        let ghost gs = self@;
        let ghost g = ix@;
        proof {
            lemma_put_ok(gs, g);
        }
        match self.find(&ix.def.name) {
            Some(i) => {
                self.list.set(i, ix);
                assert(self@ =~= gs.update(i as int, g));
            },
            None => {
                self.list.push(ix);
                assert(self@ =~= gs.push(g));
            },
        }
    }

    fn forget(&mut self, name: &str)
        requires
            graphs_ok(old(self)@),
        ensures
            final(self)@ == without_graph(old(self)@, name@),
            graphs_ok(final(self)@),
    {
        let ghost gs = self@;
        match self.find(name) {
            Some(i) => {
                let _ix = self.list.remove(i);
                assert(self@ =~= gs.remove(i as int));
                proof {
                    lemma_remove_names(graph_names(gs), i as int);
                }
                assert(graph_names(self@) =~= graph_names(gs).remove(i as int));
            },
            None => {},
        }
    }

    fn forget_table(&mut self, table: &str)
        requires
            graphs_ok(old(self)@),
        ensures
            final(self)@ == graphs_off(old(self)@, table@),
            graphs_ok(final(self)@),
    {
        let ghost gs = self@;
        let ghost mut seen: int = 0;
        let mut i: usize = 0;
        assert(self@.take(0) =~= graphs_off(gs.take(0), table@));
        while i < self.list.len()
            invariant
                0 <= seen <= gs.len(),
                i <= self.list@.len(),
                self@ == graphs_view(self.list@),
                self@.take(i as int) == graphs_off(gs.take(seen), table@),
                self@.skip(i as int) == gs.skip(seen),
            decreases self.list@.len() - i,
        {
            let ghost before = self@;
            assert(before.skip(i as int)[0] == before[i as int]);
            assert(gs.skip(seen).len() == before.skip(i as int).len());
            assert(gs[seen] == before[i as int]);
            assert(gs.take(seen + 1).drop_last() =~= gs.take(seen));
            if names_match(&self.list[i].def.table, table) {
                let _ix = self.list.remove(i);
                assert(self@ =~= before.remove(i as int));
                assert(self@.take(i as int) =~= before.take(i as int));
                assert(self@.skip(i as int) =~= before.skip(i as int).skip(1));
            } else {
                assert(before.take(i + 1) =~= before.take(i as int).push(before[i as int]));
                i += 1;
                assert(self@.skip(i as int) =~= before.skip(i - 1).skip(1));
            }
            assert(gs.skip(seen + 1) =~= gs.skip(seen).skip(1));
            proof {
                seen = seen + 1;
            }
        }
        assert(self@.skip(i as int).len() == 0);
        assert(gs.skip(seen).len() == 0);
        assert(gs.take(seen) =~= gs);
        assert(self@.take(i as int) =~= self@);
        proof {
            lemma_off_ok(gs, table@);
        }
    }

    /// Follow a definition that took effect. The graph of a new index is empty: its
    /// vectors come with [`Graphs::grow`].
    pub fn follow(&mut self, op: &WalOp)
        requires
            graphs_ok(old(self)@),
        ensures
            final(self)@ == followed(old(self)@, op@),
            graphs_ok(final(self)@),
    {
        match op {
            WalOp::CreateIndex { def } => self.put(VectorIndex::new(def.clone())),
            WalOp::DropIndex { name } => self.forget(name),
            WalOp::DropTable { name } => self.forget_table(name),
            _ => {},
        }
    }

    /// Add a vector to one graph. Where distances are missing nothing changes, and
    /// they are named.
    pub fn grow(&mut self, at: usize, vid: u64, vector: Vec<u32>, level: usize, k: &Known) -> (r:
        Result<(), Vec<(usize, usize)>>)
        requires
            graphs_ok(old(self)@),
            at < old(self)@.len(),
            level <= MAX_LEVEL,
        ensures
            grew(
                r,
                old(self)@[at as int],
                final(self)@[at as int],
                grown(old(self)@[at as int], vid, vector@, level, k@),
            ),
            final(self)@ == old(self)@.update(at as int, final(self)@[at as int]),
            graphs_ok(final(self)@),
    {
        let ghost gs = self@;
        let r = self.list[at].insert(vid, vector, level, k);
        assert(self@ =~= gs.update(at as int, self.list@[at as int]@));
        assert(graph_names(self@) =~= graph_names(gs));
        r
    }

    /// Take the rows that a rollback removed out of the graphs on their tables.
    pub fn drop_rows(&mut self, gone: &Vec<(String, Vec<u64>)>)
        requires
            graphs_ok(old(self)@),
        ensures
            final(self)@ == dropped(old(self)@, named_ids_view(gone@)),
            graphs_ok(final(self)@),
    {
        let ghost gs = self@;
        let ghost gv = named_ids_view(gone@);
        let mut i: usize = 0;
        while i < self.list.len()
            invariant
                i <= self.list@.len(),
                self@ == graphs_view(self.list@),
                self@.len() == gs.len(),
                gv == named_ids_view(gone@),
                graphs_ok(gs),
                forall|j: int| 0 <= j < i ==> #[trigger] self@[j] == rid_of(gs[j], gv, 0),
                forall|j: int| i <= j < gs.len() ==> #[trigger] self@[j] == gs[j],
                forall|j: int| 0 <= j < gs.len() ==> (#[trigger] self@[j]).def == gs[j].def,
                forall|j: int| 0 <= j < gs.len() ==> graph_ok(#[trigger] self@[j]),
            decreases self.list@.len() - i,
        {
            let ghost before = self@;
            assert(before[i as int] == gs[i as int]);
            let_go(&mut self.list[i], gone);
            assert(self@ =~= before.update(i as int, rid_of(gs[i as int], gv, 0)));
            i += 1;
        }
        assert(self@ =~= dropped(gs, gv));
        assert(graph_names(self@) =~= graph_names(gs));
    }

    /// Take note of versions of a table that a commit deleted. The names of the
    /// indexes that are now worth compacting.
    pub fn end_rows(&mut self, table: &str, vids: &Vec<u64>) -> (r: Vec<String>)
        requires
            graphs_ok(old(self)@),
        ensures
            final(self)@ == ended(old(self)@, table@, vids@),
            strings_view(r@) == worn_on(final(self)@, table@, final(self)@.len() as int),
            graphs_ok(final(self)@),
    {
        let ghost gs = self@;
        let mut out: Vec<String> = Vec::new();
        assert(strings_view(out@) =~= Seq::<Seq<char>>::empty());
        let mut i: usize = 0;
        while i < self.list.len()
            invariant
                i <= self.list@.len(),
                self@ == graphs_view(self.list@),
                self@.len() == gs.len(),
                graphs_ok(gs),
                forall|j: int| 0 <= j < i ==> #[trigger] self@[j] == ended_in(gs[j], table@, vids@),
                forall|j: int| i <= j < gs.len() ==> #[trigger] self@[j] == gs[j],
                forall|j: int| 0 <= j < gs.len() ==> (#[trigger] self@[j]).def == gs[j].def,
                forall|j: int| 0 <= j < gs.len() ==> graph_ok(#[trigger] self@[j]),
                strings_view(out@) == worn_on(self@, table@, i as int),
            decreases self.list@.len() - i,
        {
            let ghost before = self@;
            let ghost names = strings_view(out@);
            assert(before[i as int] == gs[i as int]);
            if names_match(&self.list[i].def.table, table) {
                proof {
                    lemma_marks_keep_def(gs[i as int], vids@, 0);
                }
                let worth = mark_all(&mut self.list[i], vids);
                assert(self@ =~= before.update(i as int, marked_from(gs[i as int], vids@, 0)));
                if worth {
                    let name = self.list[i].def.name.clone();
                    let ghost nv = name@;
                    out.push(name);
                    assert(strings_view(out@) =~= names.push(nv));
                }
            }
            proof {
                lemma_worn_on(before, self@, table@, i as int);
            }
            i += 1;
        }
        assert(self@ =~= ended(gs, table@, vids@));
        assert(graph_names(self@) =~= graph_names(gs));
        out
    }
}

proof fn lemma_worn_on(a: Seq<GraphV>, b: Seq<GraphV>, table: Seq<char>, n: int)
    requires
        0 <= n <= a.len(),
        a.len() == b.len(),
        forall|j: int| 0 <= j < n ==> #[trigger] a[j] == b[j],
    ensures
        worn_on(a, table, n) == worn_on(b, table, n),
    decreases n,
{
    if n > 0 {
        lemma_worn_on(a, b, table, n - 1);
        assert(a[n - 1] == b[n - 1]);
    }
}

} // verus!
