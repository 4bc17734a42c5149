//! What written times read back as.
use vstd::prelude::*;
use crate::datetime::{
    before, clock, date_text, day_number, drop_trailing, epoch_of_text, field, first_of,
    law_civil_inverse, time_text, timestamp_text, valid_date,
};
use crate::text::{
    all_digits, digits_val, i64_of_text, int_of_text, is_digit, nat_text, padded_int, repeated,
    trimmed,
};
use crate::tokenlaws::lemma_nat_text;

verus! {

// ---- numbers --------------------------------------------------------------------------------------

proof fn lemma_zeros(k: nat)
    ensures
        repeated('0', k).len() == k,
        all_digits(repeated('0', k)),
        digits_val(repeated('0', k)) == 0,
    decreases k,
{
    let z = repeated('0', k);
    if k > 0 {
        lemma_zeros((k - 1) as nat);
        assert(z.drop_last() =~= repeated('0', (k - 1) as nat));
        assert(z.last() == '0');
        assert forall|i: int| 0 <= i < z.len() implies is_digit(#[trigger] z[i]) by {
            if i < k - 1 {
                assert(z[i] == repeated('0', (k - 1) as nat)[i]);
            }
        }
    }
}

proof fn lemma_leading_zeros(k: nat, d: Seq<char>)
    requires
        all_digits(d),
    ensures
        digits_val(repeated('0', k) + d) == digits_val(d),
    decreases d.len(),
{
    let z = repeated('0', k);
    lemma_zeros(k);
    if d.len() == 0 {
        assert(z + d =~= z);
    } else {
        assert((z + d).drop_last() =~= z + d.drop_last());
        assert((z + d).last() == d.last());
        assert(all_digits(d.drop_last()));
        lemma_leading_zeros(k, d.drop_last());
    }
}

/// A padded number that is not negative reads back.
proof fn lemma_padded(n: int, width: nat)
    requires
        0 <= n <= i64::MAX,
    ensures
        padded_int(n, width).len() > 0,
        all_digits(padded_int(n, width)),
        i64_of_text(padded_int(n, width)) == Some(n as i64),
{
    let x = padded_int(n, width);
    let d = nat_text(n as nat);
    let k: nat = if d.len() < width {
        (width - d.len()) as nat
    } else {
        0
    };
    lemma_nat_text(n as nat);
    lemma_zeros(k);
    lemma_leading_zeros(k, d);
    assert(x == repeated('0', k) + d);
    assert forall|i: int| 0 <= i < x.len() implies is_digit(#[trigger] x[i]) by {
        if i < k {
            assert(x[i] == repeated('0', k)[i]);
        } else {
            assert(x[i] == d[i - k]);
        }
    }
    assert(is_digit(x[0]));
    assert(int_of_text(x) == Some(n));
}

// ---- fields ---------------------------------------------------------------------------------------

proof fn lemma_first_of(s: Seq<char>, a: char, b: char, i: int, e: int)
    requires
        0 <= i <= e <= s.len(),
        forall|j: int| i <= j < e ==> (#[trigger] s[j]) != a && s[j] != b,
        e < s.len() ==> s[e] == a || s[e] == b,
    ensures
        first_of(s, a, b, i) == e,
    decreases e - i,
{
    if i < e {
        lemma_first_of(s, a, b, i + 1, e);
    }
}

/// The field at the front, and those behind it.
proof fn lemma_front_field(x: Seq<char>, sep: char, rest: Seq<char>, k: nat)
    requires
        all_digits(x),
        !is_digit(sep),
    ensures
        field(x.push(sep) + rest, sep, 0) == Some(x),
        field(x.push(sep) + rest, sep, k + 1) == field(rest, sep, k),
{
    let s = x.push(sep) + rest;
    let n = x.len() as int;
    assert forall|j: int| 0 <= j < n implies (#[trigger] s[j]) != sep by {
        assert(s[j] == x[j]);
        assert(is_digit(x[j]));
    }
    assert(s[n] == sep);
    lemma_first_of(s, sep, sep, 0, n);
    assert(s.take(n) =~= x);
    assert(s.skip(n + 1) =~= rest);
}

proof fn lemma_last_field(x: Seq<char>, sep: char)
    requires
        all_digits(x),
        !is_digit(sep),
    ensures
        field(x, sep, 0) == Some(x),
{
    assert forall|j: int| 0 <= j < x.len() implies (#[trigger] x[j]) != sep by {
        assert(is_digit(x[j]));
    }
    lemma_first_of(x, sep, sep, 0, x.len() as int);
    assert(x.take(x.len() as int) =~= x);
}

proof fn lemma_trimmed(s: Seq<char>)
    requires
        s.len() > 0,
        is_digit(s[0]),
        is_digit(s.last()),
    ensures
        trimmed(s) == s,
{
}

/// Nothing is cut off before characters that do not occur.
proof fn lemma_before(s: Seq<char>, a: char, b: char)
    requires
        forall|j: int| 0 <= j < s.len() ==> (#[trigger] s[j]) != a && s[j] != b,
    ensures
        before(s, a, b) == s,
{
    lemma_first_of(s, a, b, 0, s.len() as int);
    assert(s.take(s.len() as int) =~= s);
}

// ---- times ----------------------------------------------------------------------------------------

/// Three numbers in a row.
spec fn triple(a: Seq<char>, sep: char, b: Seq<char>, c: Seq<char>) -> Seq<char> {
    a.push(sep) + b.push(sep) + c
}

proof fn lemma_triple(a: Seq<char>, sep: char, b: Seq<char>, c: Seq<char>)
    requires
        all_digits(a),
        all_digits(b),
        all_digits(c),
        a.len() > 0,
        c.len() > 0,
        !is_digit(sep),
    ensures
        field(triple(a, sep, b, c), sep, 0) == Some(a),
        field(triple(a, sep, b, c), sep, 1) == Some(b),
        field(triple(a, sep, b, c), sep, 2) == Some(c),
        forall|j: int|
            0 <= j < triple(a, sep, b, c).len() ==> is_digit(#[trigger] triple(a, sep, b, c)[j])
                || triple(a, sep, b, c)[j] == sep,
        is_digit(triple(a, sep, b, c)[0]),
        is_digit(triple(a, sep, b, c).last()),
{
    let s = triple(a, sep, b, c);
    let rest = b.push(sep) + c;
    assert(s =~= a.push(sep) + rest);
    lemma_front_field(a, sep, rest, 0);
    lemma_front_field(a, sep, rest, 1);
    lemma_front_field(b, sep, c, 0);
    lemma_last_field(c, sep);
    assert forall|j: int| 0 <= j < s.len() implies is_digit(#[trigger] s[j]) || s[j] == sep by {
        let m = a.len() as int;
        let n = b.len() as int;
        if j < m {
            assert(s[j] == a[j]);
            assert(is_digit(a[j]));
        } else if m < j < m + 1 + n {
            assert(s[j] == b[j - m - 1]);
            assert(is_digit(b[j - m - 1]));
        } else if j > m + 1 + n {
            assert(s[j] == c[j - m - n - 2]);
            assert(is_digit(c[j - m - n - 2]));
        }
    }
    assert(s[0] == a[0]);
    assert(is_digit(a[0]));
    assert(s.last() == c.last());
    assert(is_digit(c[c.len() - 1]));
}

/// What `clock` splits a time into is that time.
proof fn lemma_clock(e: int)
    ensures
        ({
            let p = clock(e);
            &&& valid_date(p.0, p.1, p.2)
            &&& 0 <= p.3 < 24
            &&& 0 <= p.4 < 60
            &&& 0 <= p.5 < 60
            &&& day_number(p.0, p.1, p.2) * 86400 == e - e % 86400
            &&& p.3 * 3600 + p.4 * 60 + p.5 == e % 86400
        }),
{
    law_civil_inverse(0, 0, 0, e / 86400);
}

/// A written date reads back as the midnight that begins it.
pub proof fn law_date_reads_back(e: int)
    requires
        0 <= clock(e).0 <= i64::MAX,
    ensures
        epoch_of_text(date_text(e)) == Some(e - e % 86400),
{
    let p = clock(e);
    lemma_clock(e);
    lemma_padded(p.0, 4);
    lemma_padded(p.1, 2);
    lemma_padded(p.2, 2);
    let (y, m, d) = (padded_int(p.0, 4), padded_int(p.1, 2), padded_int(p.2, 2));
    let s = date_text(e);
    assert(s == triple(y, '-', m, d));
    lemma_triple(y, '-', m, d);
    lemma_trimmed(s);
    lemma_first_of(s, 'T', ' ', 0, s.len() as int);
}

/// A written time reads back: its text denotes the very second. Years before the
/// year nought are written with a sign that no text may have.
pub proof fn law_time_reads_back(e: int)
    requires
        0 <= clock(e).0 <= i64::MAX,
    ensures
        epoch_of_text(timestamp_text(e)) == Some(e),
{
    let p = clock(e);
    lemma_clock(e);
    lemma_padded(p.0, 4);
    lemma_padded(p.1, 2);
    lemma_padded(p.2, 2);
    lemma_padded(p.3, 2);
    lemma_padded(p.4, 2);
    lemma_padded(p.5, 2);
    let (y, m, d) = (padded_int(p.0, 4), padded_int(p.1, 2), padded_int(p.2, 2));
    let (hh, mm, ss) = (padded_int(p.3, 2), padded_int(p.4, 2), padded_int(p.5, 2));
    let a = date_text(e);
    let b = time_text(e);
    let s = timestamp_text(e);
    let n = a.len() as int;
    assert(a == triple(y, '-', m, d));
    assert(b == triple(hh, ':', mm, ss));
    lemma_triple(y, '-', m, d);
    lemma_triple(hh, ':', mm, ss);
    assert(s[0] == a[0]);
    assert(s.last() == b.last());
    lemma_trimmed(s);
    assert forall|j: int| 0 <= j < n implies (#[trigger] s[j]) != 'T' && s[j] != ' ' by {
        assert(s[j] == a[j]);
    }
    assert(s[n] == ' ');
    lemma_first_of(s, 'T', ' ', 0, n);
    assert(s.take(n) =~= a);
    assert(s.skip(n + 1) =~= b);
    assert(drop_trailing(b, 'Z') == b);
    lemma_before(b, '+', 'Z');
    lemma_before(b, '-', '-');
    lemma_before(b, '.', '.');
    assert(is_digit(hh[0]));
    assert(is_digit(hh[hh.len() - 1]));
    lemma_trimmed(hh);
}

} // verus!
