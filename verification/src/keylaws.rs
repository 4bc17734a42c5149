//! How far keys tell values and rows apart.
use vstd::prelude::*;
use crate::base64::{base64_text, law_base64_round_trip};
use crate::ops::{canonical32, components_key, row_key, value_key};
use crate::text::{digits_val, int_of_text, int_text, is_digit, nat_text};
use crate::tokenlaws::lemma_nat_text;
use crate::value::{RowV, ValueV};

verus! {

/// Whether two values are the same, vectors up to the payloads of NaNs.
pub open spec fn same_value(a: ValueV, b: ValueV) -> bool {
    match (a, b) {
        (ValueV::Vector(x), ValueV::Vector(y)) => x.len() == y.len() && forall|i: int|
            0 <= i < x.len() ==> canonical32(#[trigger] x[i]) == canonical32(y[i]),
        _ => a == b,
    }
}

// ---- parts that a character closes ----------------------------------------------------------------

/// Empty, or closed by `c`.
spec fn closed_by(s: Seq<char>, c: char) -> bool {
    s.len() == 0 || s.last() == c
}

/// The last part of a text is that behind the last closer.
proof fn lemma_last_part(a: Seq<char>, k: Seq<char>, b: Seq<char>, l: Seq<char>, c: char)
    requires
        a + k == b + l,
        !k.contains(c),
        !l.contains(c),
        closed_by(a, c),
        closed_by(b, c),
    ensures
        a == b,
        k == l,
{
    let s = a + k;
    let t = b + l;
    assert(s.len() == a.len() + k.len());
    assert(t.len() == b.len() + l.len());
    if k.len() > l.len() {
        assert(b.len() > a.len());
        let at = b.len() - 1;
        assert(t[at] == b[at]);
        assert(s[at] == k[at - a.len()]);
        assert(k.contains(c));
    }
    if l.len() > k.len() {
        assert(a.len() > b.len());
        let at = a.len() - 1;
        assert(s[at] == a[at]);
        assert(t[at] == l[at - b.len()]);
        assert(l.contains(c));
    }
    lemma_same_parts(a, k, b, l);
}

/// Parts of the same length are the same.
proof fn lemma_same_parts(a: Seq<char>, k: Seq<char>, b: Seq<char>, l: Seq<char>)
    requires
        a + k == b + l,
        k.len() == l.len(),
    ensures
        a == b,
        k == l,
{
    let s = a + k;
    let t = b + l;
    assert(s.len() == t.len());
    assert(a =~= b) by {
        assert forall|i: int| 0 <= i < a.len() implies a[i] == b[i] by {
            assert(s[i] == a[i]);
            assert(t[i] == b[i]);
        }
    }
    assert(k =~= l) by {
        assert forall|i: int| 0 <= i < k.len() implies k[i] == l[i] by {
            assert(s[a.len() + i] == k[i]);
            assert(t[b.len() + i] == l[i]);
        }
    }
}

// ---- single values --------------------------------------------------------------------------------

proof fn lemma_int_text(n: int)
    ensures
        int_of_text(int_text(n)) == Some(n),
{
    let x = int_text(n);
    let m: nat = if n < 0 {
        (-n) as nat
    } else {
        n as nat
    };
    let d = nat_text(m);
    lemma_nat_text(m);
    assert(is_digit(d[0]));
    if n < 0 {
        assert(x[0] == '-');
        assert(x.drop_first() =~= d);
    }
}

proof fn lemma_components(x: Seq<u32>, y: Seq<u32>)
    requires
        components_key(x) == components_key(y),
    ensures
        x.len() == y.len(),
        forall|i: int| 0 <= i < x.len() ==> canonical32(#[trigger] x[i]) == canonical32(y[i]),
    decreases x.len(),
{
    lemma_components_closed(x);
    lemma_components_closed(y);
    if x.len() > 0 && y.len() > 0 {
        let a = components_key(x.drop_last());
        let b = components_key(y.drop_last());
        let m = canonical32(x.last()) as nat;
        let n = canonical32(y.last()) as nat;
        lemma_components_closed(x.drop_last());
        lemma_components_closed(y.drop_last());
        lemma_digits_free(m, ',');
        lemma_digits_free(n, ',');
        assert((a + nat_text(m).push(',')).drop_last() =~= a + nat_text(m));
        assert((b + nat_text(n).push(',')).drop_last() =~= b + nat_text(n));
        lemma_last_part(a, nat_text(m), b, nat_text(n), ',');
        lemma_components(x.drop_last(), y.drop_last());
        assert forall|i: int| 0 <= i < x.len() implies canonical32(#[trigger] x[i]) == canonical32(
            y[i],
        ) by {
            if i < x.len() - 1 {
                assert(x.drop_last()[i] == x[i]);
                assert(y.drop_last()[i] == y[i]);
            }
        }
    }
}

proof fn lemma_digits_free(n: nat, c: char)
    requires
        !is_digit(c),
    ensures
        !nat_text(n).contains(c),
        digits_val(nat_text(n)) == n,
{
    lemma_nat_text(n);
    assert forall|i: int| 0 <= i < nat_text(n).len() implies nat_text(n)[i] != c by {
        assert(is_digit(nat_text(n)[i]));
    }
}

proof fn lemma_components_closed(x: Seq<u32>)
    ensures
        closed_by(components_key(x), ','),
        components_key(x).len() == 0 <==> x.len() == 0,
{
    if x.len() > 0 {
        assert(components_key(x).last() == ',');
    }
}

/// Values with the same key are the same.
pub proof fn law_keys_tell_values_apart(a: ValueV, b: ValueV)
    requires
        value_key(a) == value_key(b),
    ensures
        same_value(a, b),
{
    reveal_strlit("\0null");
    let k = value_key(a);
    let l = value_key(b);
    assert(k[0] == l[0]);
    assert(k.skip(1) == l.skip(1));
    match (a, b) {
        (ValueV::Int(x), ValueV::Int(y)) => {
            assert(k.skip(1) =~= int_text(x as int));
            assert(l.skip(1) =~= int_text(y as int));
            lemma_int_text(x as int);
            lemma_int_text(y as int);
        },
        (ValueV::Real(x), ValueV::Real(y)) => {
            assert(k.skip(1) =~= nat_text(x as nat));
            assert(l.skip(1) =~= nat_text(y as nat));
            lemma_nat_text(x as nat);
            lemma_nat_text(y as nat);
        },
        (ValueV::Text(x), ValueV::Text(y)) => {
            assert(k.skip(1) =~= x);
            assert(l.skip(1) =~= y);
        },
        (ValueV::Blob(x), ValueV::Blob(y)) => {
            assert(k.skip(1) =~= base64_text(x));
            assert(l.skip(1) =~= base64_text(y));
            law_base64_round_trip(x);
            law_base64_round_trip(y);
        },
        (ValueV::Vector(x), ValueV::Vector(y)) => {
            assert(k.skip(1) =~= components_key(x));
            assert(l.skip(1) =~= components_key(y));
            lemma_components(x, y);
        },
        _ => {},
    }
}

// ---- rows -----------------------------------------------------------------------------------------

/// Rows with the same key are the same.
pub proof fn law_keys_tell_rows_apart(x: RowV, y: RowV)
    requires
        row_key(x) == row_key(y),
    ensures
        x.len() == y.len(),
        forall|i: int| 0 <= i < x.len() ==> same_value(#[trigger] x[i], y[i]),
    decreases x.len(),
{
    if x.len() > 0 && y.len() > 0 {
        let (p, q) = (x.drop_last(), y.drop_last());
        let (k, l) = (value_key(x.last()), value_key(y.last()));
        let (a, b) = (row_key(p) + k.push(','), row_key(q) + l.push(','));
        assert(x[x.len() - 1] == x.last());
        assert(y[y.len() - 1] == y.last());
        lemma_digits_free(k.len(), ',');
        lemma_digits_free(l.len(), ',');
        lemma_last_part(a, nat_text(k.len()), b, nat_text(l.len()), ',');
        assert(a.drop_last() =~= row_key(p) + k);
        assert(b.drop_last() =~= row_key(q) + l);
        lemma_same_parts(row_key(p), k, row_key(q), l);
        law_keys_tell_values_apart(x.last(), y.last());
        law_keys_tell_rows_apart(p, q);
        assert forall|i: int| 0 <= i < x.len() implies same_value(#[trigger] x[i], y[i]) by {
            if i < x.len() - 1 {
                assert(p[i] == x[i] && q[i] == y[i]);
            }
        }
    }
}

} // verus!
