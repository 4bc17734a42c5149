//! What written JSON reads back as.
use vstd::prelude::*;
use crate::asks::{RealsV, StopV};
use crate::json::{
    decimal_number, digits_end, document, elements_from, elements_text, escape_char, escaped,
    hex_lower, hex_val, json_quoted, json_text, members_from, members_text, number_at, number_char,
    number_end, number_text, space, string_at, string_from, unicode_at, value_at, JsonV,
};
use crate::text::{digit_char, int_of_text, int_text, is_digit, nat_text};
use crate::tokenlaws::lemma_nat_text;

verus! {

/// `x` stands in `s` at `q`.
spec fn stands(s: Seq<char>, q: int, x: Seq<char>) -> bool {
    &&& 0 <= q
    &&& q + x.len() <= s.len()
    &&& forall|j: int| 0 <= j < x.len() ==> s[q + j] == #[trigger] x[j]
}

// ---- strings --------------------------------------------------------------------------------------

proof fn lemma_escaped_front(v: Seq<char>)
    requires
        v.len() > 0,
    ensures
        escaped(v) == escape_char(v[0]) + escaped(v.skip(1)),
    decreases v.len(),
{
    if v.len() == 1 {
        assert(v.drop_last() =~= Seq::<char>::empty());
        assert(v.skip(1) =~= Seq::<char>::empty());
        assert(escaped(v) =~= escape_char(v[0]) + escaped(v.skip(1)));
    } else {
        lemma_escaped_front(v.drop_last());
        assert(v.drop_last().skip(1) =~= v.skip(1).drop_last());
        assert(escaped(v) =~= escape_char(v[0]) + escaped(v.skip(1)));
    }
}

proof fn lemma_control(c: char)
    requires
        (c as u32) < 0x20,
    ensures
        0 <= (c as int) < 0x20,
{
}

proof fn lemma_hex(v: int)
    requires
        0 <= v < 16,
    ensures
        hex_val(hex_lower(v)) == Some(v),
{
    if v < 10 {
        assert(hex_lower(v) as int == v + 48);
    } else {
        assert(hex_lower(v) as int == v + 87);
    }
}

proof fn lemma_string_reads(s: Seq<char>, p: int, v: Seq<char>, acc: Seq<char>)
    requires
        stands(s, p, escaped(v).push('"')),
    ensures
        string_from(s, p, acc) == Some((acc + v, p + escaped(v).len() + 1)),
    decreases v.len(),
{
    let x = escaped(v).push('"');
    if v.len() == 0 {
        assert(s[p + 0] == x[0]);
        assert(acc + v =~= acc);
    } else {
        let c = v[0];
        let e = escape_char(c);
        let rest = v.skip(1);
        lemma_escaped_front(v);
        assert(x =~= e + escaped(rest).push('"'));
        assert(stands(s, p + e.len(), escaped(rest).push('"'))) by {
            let y = escaped(rest).push('"');
            assert forall|j: int| 0 <= j < y.len() implies s[p + e.len() + j] == #[trigger] y[j] by {
                assert(x[e.len() + j] == y[j]);
                assert(s[p + (e.len() + j)] == x[e.len() + j]);
            }
        }
        lemma_string_reads(s, p + e.len(), rest, acc.push(c));
        assert(acc.push(c) + rest =~= acc + v);
        assert(s[p + 0] == x[0]);
        assert(x[0] == e[0]);
        if e.len() > 1 {
            assert(s[p + 1] == x[1]);
            assert(x[1] == e[1]);
        }
        if e.len() > 2 {
            assert(s[p + 2] == x[2] && s[p + 3] == x[3] && s[p + 4] == x[4] && s[p + 5] == x[5]);
            assert(x[2] == e[2] && x[3] == e[3] && x[4] == e[4] && x[5] == e[5]);
            lemma_control(c);
            lemma_hex(c as int / 16);
            lemma_hex(c as int % 16);
            assert(unicode_at(s, p + 2) == Some(c));
        }
    }
}

/// A quoted text reads back as the text.
proof fn lemma_quoted_reads(s: Seq<char>, p: int, v: Seq<char>)
    requires
        stands(s, p, json_quoted(v)),
    ensures
        string_at(s, p) == Some((v, p + json_quoted(v).len())),
{
    let x = json_quoted(v);
    let y = escaped(v).push('"');
    assert(x =~= seq!['"'] + y);
    assert(s[p + 0] == x[0]);
    assert(stands(s, p + 1, y)) by {
        assert forall|j: int| 0 <= j < y.len() implies s[p + 1 + j] == #[trigger] y[j] by {
            assert(x[1 + j] == y[j]);
            assert(s[p + (1 + j)] == x[1 + j]);
        }
    }
    lemma_string_reads(s, p + 1, v, Seq::empty());
    assert(Seq::<char>::empty() + v =~= v);
}

// ---- values ---------------------------------------------------------------------------------------

/// Whether the text of a number is a JSON number again.
pub open spec fn number_reads_back(t: RealsV, s: Seq<char>) -> bool {
    match number_text(t, s) {
        Ok(x) => {
            &&& x.len() > 0
            &&& forall|i: int| 0 <= i < x.len() ==> number_char(#[trigger] x[i])
            &&& decimal_number(x)
        },
        Err(_) => false,
    }
}

/// Whether the texts of all numbers in a value are JSON numbers.
pub open spec fn numbers_read_back(t: RealsV, j: JsonV) -> bool
    decreases j,
{
    match j {
        JsonV::Num(s) => number_reads_back(t, s),
        JsonV::Arr(a) => forall|i: int|
            0 <= i < a.len() ==> numbers_read_back(t, #[trigger] a[i]),
        JsonV::Obj(m) => forall|i: int|
            0 <= i < m.len() ==> numbers_read_back(t, (#[trigger] m[i]).1),
        _ => true,
    }
}

/// A value with every number in the form in which it is written.
pub open spec fn written_form(t: RealsV, j: JsonV) -> JsonV
    decreases j,
{
    match j {
        JsonV::Num(s) => JsonV::Num(number_text(t, s)->Ok_0),
        JsonV::Arr(a) => JsonV::Arr(
            Seq::new(
                a.len(),
                |i: int|
                    if 0 <= i < a.len() {
                        written_form(t, a[i])
                    } else {
                        JsonV::Null
                    },
            ),
        ),
        JsonV::Obj(m) => JsonV::Obj(
            Seq::new(
                m.len(),
                |i: int|
                    if 0 <= i < m.len() {
                        (m[i].0, written_form(t, m[i].1))
                    } else {
                        (Seq::empty(), JsonV::Null)
                    },
            ),
        ),
        _ => j,
    }
}

/// What may stand behind a value.
spec fn closes(z: Seq<char>) -> bool {
    z.len() == 0 || z[0] == ',' || z[0] == ']' || z[0] == '}'
}

/// Text that grew out of `acc`.
spec fn grew(acc: Seq<char>, x: Seq<char>) -> bool {
    acc.len() < x.len() && x.take(acc.len() as int) == acc
}

proof fn lemma_grew(acc: Seq<char>, x: Seq<char>)
    requires
        grew(acc, x),
    ensures
        forall|i: int| 0 <= i < acc.len() ==> x[i] == #[trigger] acc[i],
{
    assert forall|i: int| 0 <= i < acc.len() implies x[i] == #[trigger] acc[i] by {
        assert(x.take(acc.len() as int)[i] == x[i]);
    }
}

proof fn lemma_grew_on(a: Seq<char>, b: Seq<char>, c: Seq<char>)
    requires
        a == b || grew(a, b),
        grew(b, c),
    ensures
        grew(a, c),
        forall|i: int| 0 <= i < b.len() ==> c[i] == #[trigger] b[i],
{
    lemma_grew(b, c);
    if a != b {
        lemma_grew(a, b);
        assert(c.take(a.len() as int) =~= a) by {
            assert forall|i: int| 0 <= i < a.len() implies c[i] == #[trigger] a[i] by {
                assert(b[i] == a[i]);
            }
        }
    }
}

proof fn lemma_grew_by(a: Seq<char>, x: char)
    ensures
        grew(a, a.push(x)),
{
    assert(a.push(x).take(a.len() as int) =~= a);
}

proof fn lemma_number_end(s: Seq<char>, q: int, e: int)
    requires
        0 <= q <= e <= s.len(),
        forall|j: int| q <= j < e ==> number_char(#[trigger] s[j]),
        e == s.len() || !number_char(s[e]),
    ensures
        number_end(s, q) == e,
    decreases e - q,
{
    if q < e {
        lemma_number_end(s, q + 1, e);
    }
}

#[verifier::rlimit(40)]
proof fn lemma_value_reads(t: RealsV, j: JsonV, acc: Seq<char>, z: Seq<char>)
    requires
        numbers_read_back(t, j),
        closes(z),
    ensures
        json_text(t, j, acc) matches Ok(x) && grew(acc, x) && !space(x[acc.len() as int])
            && x[acc.len() as int] != ']' && value_at(x + z, acc.len() as int) == Some(
            (written_form(t, j), x.len() as int),
        ),
    decreases j, 0int, 0int,
{
    reveal_strlit("null");
    reveal_strlit("true");
    reveal_strlit("false");
    let n = acc.len() as int;
    match j {
        JsonV::Null => {
            let x = acc + "null"@;
            let s = x + z;
            assert(x.take(n) =~= acc);
            assert(s[n] == 'n');
            assert(s.subrange(n, n + 4) =~= "null"@);
        },
        JsonV::Bool(b) => {
            let w = if b {
                "true"@
            } else {
                "false"@
            };
            let x = acc + w;
            let s = x + z;
            assert(x.take(n) =~= acc);
            assert(s[n] == w[0]);
            assert(s.subrange(n, n + w.len()) =~= w);
        },
        JsonV::Num(d) => {
            let w = number_text(t, d)->Ok_0;
            let x = acc + w;
            let s = x + z;
            assert(x.take(n) =~= acc);
            assert(s[n] == w[0]);
            assert(number_char(w[0]));
            assert forall|i: int| n <= i < n + w.len() implies number_char(#[trigger] s[i]) by {
                assert(s[i] == w[i - n]);
            }
            lemma_number_end(s, n, n + w.len());
            assert(s.subrange(n, n + w.len()) =~= w);
            assert(number_at(s, n) == Some((JsonV::Num(w), n + w.len())));
        },
        JsonV::Str(v) => {
            let w = json_quoted(v);
            let x = acc + w;
            let s = x + z;
            assert(x.take(n) =~= acc);
            assert(w[0] == '"');
            assert(s[n] == w[0]);
            assert(stands(s, n, w));
            lemma_quoted_reads(s, n, v);
        },
        JsonV::Arr(a) => {
            let open = acc.push('[');
            let form = written_form(t, j)->Arr_0;
            if a.len() == 0 {
                let x = open.push(']');
                let s = x + z;
                assert(x.take(n) =~= acc);
                assert(s[n] == '[' && s[n + 1] == ']');
                assert(form =~= Seq::<JsonV>::empty());
            } else {
                lemma_elements_read(t, a, 0, open, z, Seq::empty());
                let x = elements_text(t, a, 0, open)->Ok_0;
                let s = x + z;
                lemma_grew(open, x);
                assert(x.take(n) =~= acc);
                assert(x[n] == open[n]);
                assert(s[n] == '[');
                assert(s[n + 1] == x[n + 1]);
                assert(Seq::<JsonV>::empty() + form.skip(0) =~= form);
            }
        },
        JsonV::Obj(m) => {
            let open = acc.push('{');
            let form = written_form(t, j)->Obj_0;
            if m.len() == 0 {
                let x = open.push('}');
                let s = x + z;
                assert(x.take(n) =~= acc);
                assert(s[n] == '{' && s[n + 1] == '}');
                assert(form =~= Seq::<(Seq<char>, JsonV)>::empty());
            } else {
                lemma_members_read(t, m, 0, open, z, Seq::empty());
                let x = members_text(t, m, 0, open)->Ok_0;
                let s = x + z;
                lemma_grew(open, x);
                assert(x.take(n) =~= acc);
                assert(x[n] == open[n]);
                assert(s[n] == '{');
                assert(s[n + 1] == x[n + 1]);
                assert(Seq::<(Seq<char>, JsonV)>::empty() + form.skip(0) =~= form);
            }
        },
    }
}

/// The elements from `i` on.
#[verifier::rlimit(60)]
#[verifier::spinoff_prover]
proof fn lemma_elements_read(
    t: RealsV,
    a: Seq<JsonV>,
    i: int,
    acc: Seq<char>,
    z: Seq<char>,
    done: Seq<JsonV>,
)
    requires
        0 <= i < a.len(),
        forall|k: int| 0 <= k < a.len() ==> numbers_read_back(t, #[trigger] a[k]),
    ensures
        elements_text(t, a, i, acc) matches Ok(x) && {
            let start = if i > 0 {
                (acc.len() + 1) as int
            } else {
                acc.len() as int
            };
            &&& grew(acc, x)
            &&& start < x.len()
            &&& i > 0 ==> x[acc.len() as int] == ','
            &&& !space(x[start])
            &&& x[start] != ']'
            &&& elements_from(x + z, start, done) == Some(
                (
                    JsonV::Arr(done + written_form(t, JsonV::Arr(a))->Arr_0.skip(i)),
                    x.len() as int,
                ),
            )
        },
    decreases a, 1int, a.len() - i,
{
    let form = written_form(t, JsonV::Arr(a))->Arr_0;
    let head = if i > 0 {
        acc.push(',')
    } else {
        acc
    };
    let start = head.len() as int;
    assert(numbers_read_back(t, a[i]));
    lemma_value_reads(t, a[i], head, Seq::empty());
    let y = json_text(t, a[i], head)->Ok_0;
    lemma_grew(head, y);
    let v = written_form(t, a[i]);
    assert(form[i] == v);
    if i > 0 {
        lemma_grew_by(acc, ',');
    }
    lemma_grew_on(acc, head, y);
    if i + 1 < a.len() {
        lemma_elements_read(t, a, i + 1, y, z, done.push(v));
        let x = elements_text(t, a, i + 1, y)->Ok_0;
        let s = x + z;
        lemma_grew_on(acc, y, x);
        let w = s.skip(y.len() as int);
        assert(y + w =~= s) by {
            assert forall|k: int| 0 <= k < y.len() implies s[k] == #[trigger] y[k] by {
                assert(s[k] == x[k]);
            }
        }
        assert(w[0] == x[y.len() as int]);
        lemma_value_reads(t, a[i], head, w);
        assert(s[y.len() as int] == ',');
        assert(x[start] == y[start]);
        if i > 0 {
            assert(x[acc.len() as int] == y[acc.len() as int]);
            assert(y[acc.len() as int] == head[acc.len() as int]);
        }
        assert(done.push(v) + form.skip(i + 1) =~= done + form.skip(i));
    } else {
        let x = y.push(']');
        let s = x + z;
        let w = s.skip(y.len() as int);
        lemma_grew_by(y, ']');
        lemma_grew_on(acc, y, x);
        assert(elements_text(t, a, i + 1, y) == Ok::<Seq<char>, StopV>(x));
        assert(y + w =~= s);
        assert(w[0] == ']');
        lemma_value_reads(t, a[i], head, w);
        assert(s[y.len() as int] == ']');
        if i > 0 {
            assert(y[acc.len() as int] == head[acc.len() as int]);
        }
        assert(done.push(v) =~= done + form.skip(i));
    }
}

/// One member, with what closes it or parts it from the next.
proof fn lemma_member_reads(
    t: RealsV,
    name: Seq<char>,
    j: JsonV,
    lead: Seq<char>,
    w: Seq<char>,
)
    requires
        numbers_read_back(t, j),
        closes(w),
    ensures
        json_text(t, j, (lead + json_quoted(name)).push(':')) matches Ok(y) && {
            let s = y + w;
            let start = lead.len() as int;
            let c = start + json_quoted(name).len();
            &&& grew(lead, y)
            &&& y[start] == '"'
            &&& c < y.len()
            &&& string_at(s, start) == Some((name, c))
            &&& s[c] == ':'
            &&& value_at(s, c + 1) == Some((written_form(t, j), y.len() as int))
            &&& c + 1 < y.len()
        },
    decreases j, 2int, 0int,
{
    let key = json_quoted(name);
    let named = lead + key;
    let head = named.push(':');
    let start = lead.len() as int;
    let c = named.len() as int;
    lemma_value_reads(t, j, head, w);
    let y = json_text(t, j, head)->Ok_0;
    let s = y + w;
    lemma_grew(head, y);
    assert(grew(lead, y)) by {
        assert(y.take(start) =~= lead) by {
            assert forall|k: int| 0 <= k < start implies y[k] == #[trigger] lead[k] by {
                assert(head[k] == lead[k]);
            }
        }
    }
    assert(stands(s, start, key)) by {
        assert forall|k: int| 0 <= k < key.len() implies s[start + k] == #[trigger] key[k] by {
            assert(head[start + k] == key[k]);
        }
    }
    lemma_quoted_reads(s, start, name);
    assert(key[0] == '"');
    assert(head[start] == key[0]);
    assert(head[c] == ':');
}

/// The members from `i` on.
#[verifier::rlimit(60)]
#[verifier::spinoff_prover]
proof fn lemma_members_read(
    t: RealsV,
    m: Seq<(Seq<char>, JsonV)>,
    i: int,
    acc: Seq<char>,
    z: Seq<char>,
    done: Seq<(Seq<char>, JsonV)>,
)
    requires
        0 <= i < m.len(),
        forall|k: int| 0 <= k < m.len() ==> numbers_read_back(t, (#[trigger] m[k]).1),
    ensures
        members_text(t, m, i, acc) matches Ok(x) && {
            let start = if i > 0 {
                (acc.len() + 1) as int
            } else {
                acc.len() as int
            };
            &&& grew(acc, x)
            &&& start < x.len()
            &&& i > 0 ==> x[acc.len() as int] == ','
            &&& x[start] == '"'
            &&& members_from(x + z, start, done) == Some(
                (
                    JsonV::Obj(done + written_form(t, JsonV::Obj(m))->Obj_0.skip(i)),
                    x.len() as int,
                ),
            )
        },
    decreases m, 1int, m.len() - i,
{
    let form = written_form(t, JsonV::Obj(m))->Obj_0;
    let lead = if i > 0 {
        acc.push(',')
    } else {
        acc
    };
    let start = lead.len() as int;
    let name = m[i].0;
    let j = m[i].1;
    let v = written_form(t, j);
    let more = done.push((name, v));
    assert(numbers_read_back(t, m[i].1));
    assert(decreases_to!(m => m[i].1)) by {
        assert(decreases_to!(m => m[i]));
    }
    lemma_member_reads(t, name, j, lead, Seq::empty());
    let y = json_text(t, j, (lead + json_quoted(name)).push(':'))->Ok_0;
    assert(form[i] == (name, v));
    if i > 0 {
        lemma_grew_by(acc, ',');
    }
    lemma_grew_on(acc, lead, y);
    if i + 1 < m.len() {
        lemma_members_read(t, m, i + 1, y, z, more);
        let x = members_text(t, m, i + 1, y)->Ok_0;
        let s = x + z;
        lemma_grew_on(acc, y, x);
        let w = s.skip(y.len() as int);
        assert(y + w =~= s) by {
            assert forall|k: int| 0 <= k < y.len() implies s[k] == #[trigger] y[k] by {
                assert(s[k] == x[k]);
            }
        }
        assert(w[0] == x[y.len() as int]);
        lemma_member_reads(t, name, j, lead, w);
        assert(s[y.len() as int] == ',');
        assert(s[start] == y[start]);
        assert(x[start] == y[start]);
        if i > 0 {
            assert(x[acc.len() as int] == y[acc.len() as int]);
            assert(y[acc.len() as int] == lead[acc.len() as int]);
        }
        assert(more + form.skip(i + 1) =~= done + form.skip(i));
    } else {
        let x = y.push('}');
        let s = x + z;
        let w = s.skip(y.len() as int);
        lemma_grew_by(y, '}');
        lemma_grew_on(acc, y, x);
        assert(members_text(t, m, i + 1, y) == Ok::<Seq<char>, StopV>(x));
        assert(y + w =~= s);
        assert(w[0] == '}');
        lemma_member_reads(t, name, j, lead, w);
        assert(s[y.len() as int] == '}');
        assert(s[start] == y[start]);
        if i > 0 {
            assert(y[acc.len() as int] == lead[acc.len() as int]);
        }
        assert(more =~= done + form.skip(i));
    }
}

proof fn lemma_digits_end(s: Seq<char>, q: int)
    requires
        0 <= q <= s.len(),
        forall|j: int| q <= j < s.len() ==> is_digit(#[trigger] s[j]),
    ensures
        digits_end(s, q) == s.len(),
    decreases s.len() - q,
{
    if q < s.len() {
        lemma_digits_end(s, q + 1);
    }
}

/// A number is written without a needless zero in front.
proof fn lemma_no_needless_zero(n: nat)
    ensures
        nat_text(n).len() > 0,
        nat_text(n)[0] == '0' ==> nat_text(n).len() == 1,
        n > 0 ==> nat_text(n)[0] != '0',
    decreases n,
{
    if n < 10 {
        assert(nat_text(n)[0] == digit_char(n as int));
    } else {
        lemma_no_needless_zero(n / 10);
        assert(nat_text(n)[0] == nat_text(n / 10)[0]);
    }
}

/// The whole numbers of fewer than sixteen digits read back.
pub proof fn law_whole_numbers_read_back(t: RealsV, s: Seq<char>)
    requires
        int_of_text(s) matches Some(n) && -1_000_000_000_000_000 < n < 1_000_000_000_000_000,
    ensures
        number_reads_back(t, s),
        int_of_text(number_text(t, s)->Ok_0) == int_of_text(s),
{
    let n = int_of_text(s)->0;
    let x = int_text(n);
    let d = nat_text(if n < 0 {
        (-n) as nat
    } else {
        n as nat
    });
    lemma_nat_text(if n < 0 {
        (-n) as nat
    } else {
        n as nat
    });
    lemma_no_needless_zero(if n < 0 {
        (-n) as nat
    } else {
        n as nat
    });
    if n < 0 {
        assert(x[0] == '-');
        assert(x[1] == d[0]);
        assert(x.drop_first() =~= d);
        assert forall|j: int| 1 <= j < x.len() implies is_digit(#[trigger] x[j]) by {
            assert(x[j] == d[j - 1]);
        }
        lemma_digits_end(x, 1);
        assert forall|i: int| 0 <= i < x.len() implies number_char(#[trigger] x[i]) by {
            if i > 0 {
                assert(is_digit(x[i]));
            }
        }
    } else {
        assert(is_digit(x[0]));
        lemma_digits_end(x, 0);
    }
}

/// What is written as JSON reads back as the same value, its numbers in the form in
/// which they were written.
pub proof fn law_json_reads_back(t: RealsV, j: JsonV)
    requires
        numbers_read_back(t, j),
    ensures
        json_text(t, j, Seq::empty()) matches Ok(x) && document(x) == Some(written_form(t, j)),
{
    let none = Seq::<char>::empty();
    lemma_value_reads(t, j, none, none);
    let x = json_text(t, j, none)->Ok_0;
    assert(x + none =~= x);
}

} // verus!
