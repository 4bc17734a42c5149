//! What grouping keeps of the rows.
use vstd::multiset::Multiset;
use vstd::prelude::*;
use crate::env::EnvV;
use crate::eval::ev_list;
use crate::ops::row_key;
use crate::scope::{in_row, ScopeV};
use crate::select::{group_at, grouped_from, groups_of, with_row, GroupV};
use crate::sql::ExprV;
use crate::value::RowV;

verus! {

/// The rows of the first `n` groups, each as often as it occurs.
pub open spec fn rows_of_groups(gs: Seq<GroupV>, n: int) -> Multiset<RowV>
    decreases n,
{
    if n <= 0 || n > gs.len() {
        Multiset::empty()
    } else {
        rows_of_groups(gs, n - 1).add(gs[n - 1].rows.to_multiset())
    }
}

/// No two groups have the same key.
pub open spec fn keys_apart(gs: Seq<GroupV>) -> bool {
    forall|i: int, j: int|
        #![trigger gs[i], gs[j]]
        0 <= i < gs.len() && 0 <= j < gs.len() && gs[i].key == gs[j].key ==> i == j
}

/// Every group has a row.
pub open spec fn none_empty(gs: Seq<GroupV>) -> bool {
    forall|i: int| 0 <= i < gs.len() ==> (#[trigger] gs[i]).rows.len() > 0
}

spec fn all_keyed(gs: Seq<GroupV>, key: Seq<char>) -> bool {
    forall|i: int| 0 <= i < gs.len() ==> (#[trigger] gs[i]).key == key
}

pub proof fn lemma_group_at(gs: Seq<GroupV>, key: Seq<char>, i: int)
    requires
        0 <= i,
    ensures
        match group_at(gs, key, i) {
            Some(g) => i <= g < gs.len() && gs[g].key == key,
            None => forall|j: int| i <= j < gs.len() ==> (#[trigger] gs[j]).key != key,
        },
    decreases gs.len() - i,
{
    if i < gs.len() && gs[i].key != key {
        lemma_group_at(gs, key, i + 1);
    }
}

proof fn lemma_same_rows(a: Seq<GroupV>, b: Seq<GroupV>, n: int)
    requires
        0 <= n <= a.len(),
        n <= b.len(),
        forall|i: int| 0 <= i < n ==> (#[trigger] a[i]).rows == b[i].rows,
    ensures
        rows_of_groups(a, n) == rows_of_groups(b, n),
    decreases n,
{
    if n > 0 {
        lemma_same_rows(a, b, n - 1);
        assert(a[n - 1].rows == b[n - 1].rows);
    }
}

proof fn lemma_row_in_group(gs: Seq<GroupV>, g: int, row: RowV, n: int)
    requires
        0 <= g < n <= gs.len(),
    ensures
        ({
            let more = gs.update(g, GroupV { key: gs[g].key, rows: gs[g].rows.push(row) });
            rows_of_groups(more, n) == rows_of_groups(gs, n).insert(row)
        }),
    decreases n,
{
    broadcast use vstd::seq_lib::group_to_multiset_ensures;

    let more = gs.update(g, GroupV { key: gs[g].key, rows: gs[g].rows.push(row) });
    if n - 1 == g {
        lemma_same_rows(more, gs, n - 1);
        assert(more[g].rows.to_multiset() == gs[g].rows.to_multiset().insert(row));
        assert(rows_of_groups(more, n) =~= rows_of_groups(gs, n).insert(row));
    } else {
        lemma_row_in_group(gs, g, row, n - 1);
        assert(more[n - 1] == gs[n - 1]);
        assert(rows_of_groups(more, n) =~= rows_of_groups(gs, n).insert(row));
    }
}

/// A row that is added is in one group more, and no other group changes.
proof fn lemma_with_row(gs: Seq<GroupV>, key: Seq<char>, row: RowV)
    requires
        keys_apart(gs),
        none_empty(gs),
    ensures
        ({
            let more = with_row(gs, key, row);
            &&& keys_apart(more)
            &&& none_empty(more)
            &&& rows_of_groups(more, more.len() as int) == rows_of_groups(
                gs,
                gs.len() as int,
            ).insert(row)
        }),
{
    broadcast use vstd::seq_lib::group_to_multiset_ensures;

    lemma_group_at(gs, key, 0);
    let more = with_row(gs, key, row);
    match group_at(gs, key, 0) {
        Some(g) => {
            lemma_row_in_group(gs, g, row, gs.len() as int);
            assert forall|i: int, j: int|
                #![trigger more[i], more[j]]
                0 <= i < more.len() && 0 <= j < more.len() && more[i].key == more[j].key implies i
                == j by {
                assert(more[i].key == gs[i].key && more[j].key == gs[j].key);
            }
            assert forall|i: int| 0 <= i < more.len() implies (#[trigger] more[i]).rows.len()
                > 0 by {
                if i != g {
                    assert(more[i] == gs[i]);
                }
            }
        },
        None => {
            let n = gs.len() as int;
            lemma_same_rows(more, gs, n);
            assert(seq![row].to_multiset() =~= Multiset::singleton(row)) by {
                assert(Seq::<RowV>::empty().push(row) =~= seq![row]);
                assert(Seq::<RowV>::empty().to_multiset() =~= Multiset::empty());
            }
            assert(rows_of_groups(more, n + 1) =~= rows_of_groups(gs, n).insert(row));
            assert forall|i: int, j: int|
                #![trigger more[i], more[j]]
                0 <= i < more.len() && 0 <= j < more.len() && more[i].key == more[j].key implies i
                == j by {
                if i < n && j < n {
                    assert(more[i] == gs[i] && more[j] == gs[j]);
                } else if i < n {
                    assert(more[i] == gs[i]);
                } else if j < n {
                    assert(more[j] == gs[j]);
                }
            }
            assert forall|i: int| 0 <= i < more.len() implies (#[trigger] more[i]).rows.len()
                > 0 by {
                if i < n {
                    assert(more[i] == gs[i]);
                }
            }
        },
    }
}

proof fn lemma_grouped(
    rows: Seq<RowV>,
    s: ScopeV,
    by: Seq<ExprV>,
    env: EnvV,
    i: int,
    acc: Seq<GroupV>,
)
    requires
        0 <= i <= rows.len(),
        keys_apart(acc),
        none_empty(acc),
        by.len() == 0 ==> all_keyed(acc, row_key(Seq::empty())),
        rows_of_groups(acc, acc.len() as int) == rows.take(i).to_multiset(),
        grouped_from(rows, s, by, env, i, acc) is Ok,
    ensures
        ({
            let gs = grouped_from(rows, s, by, env, i, acc)->Ok_0;
            &&& keys_apart(gs)
            &&& none_empty(gs)
            &&& by.len() == 0 ==> all_keyed(gs, row_key(Seq::empty()))
            &&& rows_of_groups(gs, gs.len() as int) == rows.to_multiset()
        }),
    decreases rows.len() - i,
{
    broadcast use vstd::seq_lib::group_to_multiset_ensures;

    if i < rows.len() {
        let vals = ev_list(by, 0, Seq::empty(), in_row(s, rows[i], i), env)->Ok_0;
        let key = row_key(vals);
        lemma_with_row(acc, key, rows[i]);
        if by.len() == 0 {
            lemma_group_at(acc, key, 0);
            let more = with_row(acc, key, rows[i]);
            assert forall|g: int| 0 <= g < more.len() implies (#[trigger] more[g]).key == row_key(
                Seq::empty(),
            ) by {
                if g < acc.len() {
                    assert(acc[g].key == row_key(Seq::empty()));
                }
            }
        }
        assert(rows.take(i + 1) =~= rows.take(i).push(rows[i]));
        lemma_grouped(rows, s, by, env, i + 1, with_row(acc, key, rows[i]));
    } else {
        assert(rows.take(i) =~= rows);
    }
}

/// Grouping parts the rows: each of them is in one group, as often as it occurs;
/// groups have different keys; with `GROUP BY` none is empty, and without it there is
/// one.
pub proof fn law_groups_part_the_rows(
    rows: Seq<RowV>,
    s: ScopeV,
    by: Seq<ExprV>,
    env: EnvV,
)
    requires
        groups_of(rows, s, by, env) is Ok,
    ensures
        ({
            let gs = groups_of(rows, s, by, env)->Ok_0;
            &&& keys_apart(gs)
            &&& by.len() > 0 ==> none_empty(gs)
            &&& by.len() == 0 ==> gs.len() == 1
            &&& rows_of_groups(gs, gs.len() as int) == rows.to_multiset()
        }),
{
    broadcast use vstd::seq_lib::group_to_multiset_ensures;

    let none = Seq::<GroupV>::empty();
    assert(rows.take(0) =~= Seq::<RowV>::empty());
    assert(Seq::<RowV>::empty().to_multiset() =~= Multiset::empty());
    lemma_grouped(rows, s, by, env, 0, none);
    let gs = groups_of(rows, s, by, env)->Ok_0;
    let found = grouped_from(rows, s, by, env, 0, none)->Ok_0;
    if by.len() == 0 && found.len() > 1 {
        assert(found[0].key == found[1].key);
    }
    if by.len() == 0 && found.len() == 0 {
        assert(rows_of_groups(found, 0) == rows.to_multiset());
        assert(rows_of_groups(gs, 0) == Multiset::<RowV>::empty());
        assert(rows_of_groups(gs, 1) =~= rows.to_multiset());
    }
}

} // verus!
