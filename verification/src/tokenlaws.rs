//! What a written list of tokens reads back as.
use vstd::prelude::*;
use crate::asks::{number_of, shown, AskV, RealsV, StopV};
use crate::ieee::INF_BITS;
use crate::lex::{
    all_plain, at, byte_chars, digits_end, in_word, is_alpha, is_blank, is_scalar, lexed,
    lexed_from, line_end, mantissa_end, next_at, number_end, number_token, onward, quotes_doubled,
    real_literal, rejoined, spaced, stands_bare, string_from, symbol_at, symbol_text, token_at,
    token_text, wide_at, word_end, written_from, StepV, Sym, TokV,
};
use crate::text::{all_digits, digit_char, digits_val, int_of_text, is_digit, nat_text};

verus! {

/// Every character is one of a bare word.
pub open spec fn word_chars(w: Seq<char>) -> bool {
    forall|i: int| 0 <= i < w.len() ==> in_word(#[trigger] w[i])
}

/// The host reads a real back from the text that it is written with: digits around a
/// point, or what stands for the one beyond all.
pub open spec fn real_reads_back(t: RealsV, b: u64) -> bool {
    match real_literal(t, b) {
        Ok(x) => {
            &&& b != INF_BITS ==> {
                &&& x.len() > 0
                &&& is_digit(x[0])
                &&& forall|i: int| 0 <= i < x.len() ==> is_digit(#[trigger] x[i]) || x[i] == '.'
            }
            &&& number_of(t, x) == Ok::<Option<u64>, StopV>(Some(b))
        },
        Err(_) => false,
    }
}

/// The characters of a text from `i` on, each as those of its bytes.
pub open spec fn bytes_from(o: Seq<char>, i: int) -> Seq<char>
    decreases o.len() - i,
{
    if i < 0 || i >= o.len() {
        Seq::empty()
    } else {
        byte_chars(o[i]) + bytes_from(o, i + 1)
    }
}

/// Whether a string literal reads as `s`.
pub open spec fn is_literal(s: Seq<char>) -> bool {
    exists|o: Seq<char>| s == #[trigger] bytes_from(o, 0)
}

/// The tokens that a text can hold.
pub open spec fn can_stand(k: TokV) -> bool {
    match k {
        TokV::Word(w) => stands_bare(w) || !w.contains('"') || !w.contains('`'),
        TokV::Int(n) => n >= 0,
        TokV::Real(b) => true,
        TokV::Str(s) => is_literal(s),
        TokV::NumParam(n) => n <= i64::MAX,
        TokV::NamedParam(w) => w.len() > 0 && word_chars(w),
        TokV::Sym(s) => s != Sym::Eof,
    }
}

/// The tokens whose text says all of them: those that a text can hold, as far as the
/// host reads its reals back.
pub open spec fn says_all(t: RealsV, k: TokV) -> bool {
    can_stand(k) && (k matches TokV::Real(b) ==> real_reads_back(t, b))
}

/// Whether a character may follow a token without a blank and not become part of
/// it.
pub open spec fn parts_from(k: TokV, c: char) -> bool {
    ||| k == TokV::Sym(Sym::LParen) || k == TokV::Sym(Sym::DColon) || k == TokV::Sym(Sym::Dot)
    ||| c == ' ' || c == ',' || c == ')' || c == ':'
    ||| c == '(' && k is Word
    ||| c == '.' && !(k is Int) && !(k is Real)
}

// ---- single tokens --------------------------------------------------------------------------------

/// `x` stands in `s` at `q`.
pub open spec fn stands_at(s: Seq<char>, q: int, x: Seq<char>) -> bool {
    &&& 0 <= q
    &&& q + x.len() <= s.len()
    &&& s.subrange(q, q + x.len()) == x
}

proof fn lemma_stands(s: Seq<char>, q: int, x: Seq<char>)
    requires
        stands_at(s, q, x),
    ensures
        forall|j: int| 0 <= j < x.len() ==> s[q + j] == #[trigger] x[j],
{
    assert forall|j: int| 0 <= j < x.len() implies s[q + j] == #[trigger] x[j] by {
        assert(s.subrange(q, q + x.len())[j] == s[q + j]);
    }
}

proof fn lemma_word_end(s: Seq<char>, q: int, e: int)
    requires
        0 <= q <= e <= s.len(),
        forall|j: int| q <= j < e ==> in_word(#[trigger] s[j]),
        e == s.len() || !in_word(s[e]),
    ensures
        word_end(s, q) == e,
    decreases e - q,
{
    if q < e {
        lemma_word_end(s, q + 1, e);
    }
}

proof fn lemma_digits_end(s: Seq<char>, q: int, e: int)
    requires
        0 <= q <= e <= s.len(),
        forall|j: int| q <= j < e ==> is_digit(#[trigger] s[j]),
        e == s.len() || !is_digit(s[e]),
    ensures
        digits_end(s, q) == e,
    decreases e - q,
{
    if q < e {
        lemma_digits_end(s, q + 1, e);
    }
}

proof fn lemma_mantissa_end(s: Seq<char>, q: int, e: int)
    requires
        0 <= q <= e <= s.len(),
        forall|j: int| q <= j < e ==> is_digit(#[trigger] s[j]) || s[j] == '.',
        e == s.len() || (!is_digit(s[e]) && s[e] != '.'),
    ensures
        mantissa_end(s, q) == e,
    decreases e - q,
{
    if q < e {
        lemma_mantissa_end(s, q + 1, e);
    }
}

/// The digits of a number denote it.
pub proof fn lemma_nat_text(n: nat)
    ensures
        nat_text(n).len() > 0,
        all_digits(nat_text(n)),
        digits_val(nat_text(n)) == n,
    decreases n,
{
    if n < 10 {
        let x = nat_text(n);
        assert(x.drop_last() =~= Seq::<char>::empty());
        assert(digits_val(x.drop_last()) == 0);
        assert(x.last() == digit_char(n as int));
    } else {
        lemma_nat_text(n / 10);
        let x = nat_text(n);
        let d = digit_char((n % 10) as int);
        assert(x.drop_last() =~= nat_text(n / 10));
        assert(x.last() == d);
        assert forall|i: int| 0 <= i < x.len() implies is_digit(#[trigger] x[i]) by {
            if i < x.len() - 1 {
                assert(x[i] == nat_text(n / 10)[i]);
            }
        }
    }
}

proof fn lemma_symbol_reads(s: Seq<char>, q: int, y: Sym)
    requires
        y != Sym::Eof,
        stands_at(s, q, symbol_text(y)),
        q + symbol_text(y).len() == s.len() || parts_from(
            TokV::Sym(y),
            s[q + symbol_text(y).len()],
        ),
    ensures
        symbol_text(y).len() > 0,
        !is_blank(s[q]),
        !(s[q] == '-' && at(s, q + 1, '-')),
        symbol_at(s, q) == Some((y, symbol_text(y).len() as int)),
{
    let x = symbol_text(y);
    lemma_stands(s, q, x);
    reveal_strlit("?");
    reveal_strlit("(");
    reveal_strlit(")");
    reveal_strlit("[");
    reveal_strlit("]");
    reveal_strlit(",");
    reveal_strlit(";");
    reveal_strlit("::");
    reveal_strlit(".");
    reveal_strlit("*");
    reveal_strlit("=");
    reveal_strlit("<>");
    reveal_strlit("<");
    reveal_strlit("<=");
    reveal_strlit(">");
    reveal_strlit(">=");
    reveal_strlit("+");
    reveal_strlit("-");
    reveal_strlit("/");
    reveal_strlit("%");
    reveal_strlit("||");
    reveal_strlit("->");
    reveal_strlit("->>");
    reveal_strlit("<->");
    reveal_strlit("<=>");
    reveal_strlit("<#>");
    assert(s[q + 0] == x[0]);
    if x.len() > 1 {
        assert(s[q + 1] == x[1]);
    }
    if x.len() > 2 {
        assert(s[q + 2] == x[2]);
    }
}

proof fn lemma_doubled(v: Seq<char>, i: int, acc: Seq<char>)
    requires
        0 <= i,
    ensures
        quotes_doubled(v, i, acc) == acc + quotes_doubled(v, i, Seq::empty()),
    decreases v.len() - i,
{
    if i < v.len() {
        let one = if v[i] == '\'' {
            seq!['\'', '\'']
        } else {
            seq![v[i]]
        };
        let next = if v[i] == '\'' {
            acc.push('\'').push('\'')
        } else {
            acc.push(v[i])
        };
        let none = Seq::<char>::empty();
        let alone = if v[i] == '\'' {
            none.push('\'').push('\'')
        } else {
            none.push(v[i])
        };
        lemma_doubled(v, i + 1, next);
        lemma_doubled(v, i + 1, alone);
        assert(next =~= acc + one);
        assert(alone =~= one);
        assert(quotes_doubled(v, i, acc) =~= acc + quotes_doubled(v, i, none));
    } else {
        assert(acc =~= acc + Seq::<char>::empty());
    }
}

/// The bytes of a character, put together again, are the character.
proof fn lemma_wide(s: Seq<char>, i: int, c: char)
    requires
        0 <= i,
        i + byte_chars(c).len() <= s.len(),
        s.subrange(i, i + byte_chars(c).len()) == byte_chars(c),
    ensures
        ({
            let (n, w) = wide_at(s, i);
            if c as int >= 0x80 {
                n == c as int && w == byte_chars(c).len() && is_scalar(n)
            } else {
                s[i] == c && w == 1
            }
        }),
        (c as int) as char == c,
{
    let b = byte_chars(c);
    assert forall|j: int| 0 <= j < b.len() implies s[i + j] == #[trigger] b[j] by {
        assert(s.subrange(i, i + b.len())[j] == s[i + j]);
    }
    let n = c as int;
    assert(s[i + 0] == b[0]);
    if n >= 0x80 {
        assert(s[i + 1] == b[1]);
        if n >= 0x800 {
            assert(s[i + 2] == b[2]);
            if n >= 0x10000 {
                assert(s[i + 3] == b[3]);
            }
        }
    }
}

proof fn lemma_rejoined(s: Seq<char>, o: Seq<char>, i: int, j: int, acc: Seq<char>)
    requires
        0 <= i <= s.len(),
        0 <= j <= o.len(),
        s.subrange(i, s.len() as int) == bytes_from(o, j),
    ensures
        rejoined(s, i, acc) == acc + o.skip(j),
    decreases o.len() - j,
{
    let rest = s.subrange(i, s.len() as int);
    if j == o.len() {
        assert(rest.len() == 0);
        assert(acc + o.skip(j) =~= acc);
    } else {
        let b = byte_chars(o[j]);
        let tail = bytes_from(o, j + 1);
        assert(rest == b + tail);
        assert(s.subrange(i, i + b.len()) =~= b) by {
            assert forall|k: int| 0 <= k < b.len() implies s[i + k] == #[trigger] b[k] by {
                assert(rest[k] == (b + tail)[k]);
            }
        }
        let next = i + b.len();
        assert(s.subrange(next, s.len() as int) =~= tail) by {
            assert forall|k: int| 0 <= k < tail.len() implies s[next + k] == #[trigger] tail[k] by {
                assert(rest[b.len() + k] == (b + tail)[b.len() + k]);
            }
            assert(rest.len() == b.len() + tail.len());
        }
        lemma_wide(s, i, o[j]);
        lemma_rejoined(s, o, next, j + 1, acc.push(o[j]));
        assert(acc.push(o[j]) + o.skip(j + 1) =~= acc + o.skip(j));
    }
}

/// A string is read up to the quote that closes it.
proof fn lemma_string_reads(s: Seq<char>, p: int, v: Seq<char>, i: int, acc: Seq<char>)
    requires
        0 <= i <= v.len(),
        stands_at(s, p, quotes_doubled(v, i, Seq::empty()).push('\'')),
        ({
            let e = p + quotes_doubled(v, i, Seq::empty()).len() + 1;
            e == s.len() || s[e] != '\''
        }),
    ensures
        string_from(s, p, acc) == Ok::<StepV, StopV>(
            StepV {
                tok: TokV::Str(acc + bytes_from(v, i)),
                next: p + quotes_doubled(v, i, Seq::empty()).len() + 1,
            },
        ),
    decreases v.len() - i,
{
    let none = Seq::<char>::empty();
    let d = quotes_doubled(v, i, none);
    let x = d.push('\'');
    lemma_stands(s, p, x);
    if i == v.len() {
        assert(d =~= none);
        assert(s[p + 0] == x[0]);
        assert(acc + bytes_from(v, i) =~= acc);
    } else {
        let rest = quotes_doubled(v, i + 1, none);
        let y = rest.push('\'');
        assert(acc + bytes_from(v, i) =~= acc + byte_chars(v[i]) + bytes_from(v, i + 1));
        if v[i] == '\'' {
            lemma_doubled(v, i + 1, none.push('\'').push('\''));
            assert(d =~= seq!['\'', '\''] + rest);
            assert(s[p + 0] == x[0]);
            assert(s[p + 1] == x[1]);
            assert(s.subrange(p + 2, p + 2 + y.len()) =~= y) by {
                assert forall|j: int| 0 <= j < y.len() implies s[p + 2 + j] == #[trigger] y[j] by {
                    assert(x[2 + j] == y[j]);
                    assert(s[p + (2 + j)] == x[2 + j]);
                }
            }
            lemma_string_reads(s, p + 2, v, i + 1, acc.push('\''));
            assert(acc.push('\'') =~= acc + byte_chars(v[i]));
        } else {
            lemma_doubled(v, i + 1, none.push(v[i]));
            assert(d =~= seq![v[i]] + rest);
            assert(s[p + 0] == x[0]);
            assert(s.subrange(p + 1, p + 1 + y.len()) =~= y) by {
                assert forall|j: int| 0 <= j < y.len() implies s[p + 1 + j] == #[trigger] y[j] by {
                    assert(x[1 + j] == y[j]);
                    assert(s[p + (1 + j)] == x[1 + j]);
                }
            }
            lemma_string_reads(s, p + 1, v, i + 1, acc + byte_chars(v[i]));
        }
    }
}

/// A name in quotes is read up to the quote that closes it.
proof fn lemma_quoted_reads(s: Seq<char>, t: RealsV, q: int, w: Seq<char>, c: char)
    requires
        c == '"' || c == '`',
        !w.contains(c),
        stands_at(s, q, seq![c] + w + seq![c]),
    ensures
        token_at(s, t, q) == Ok::<StepV, StopV>(
            StepV { tok: TokV::Word(w), next: q + w.len() + 2 },
        ),
        s[q] == c,
{
    let x = seq![c] + w + seq![c];
    lemma_stands(s, q, x);
    assert(s[q + 0] == x[0]);
    let e = q + 1 + w.len();
    assert(s[q + (1 + w.len())] == x[1 + w.len() as int]);
    assert forall|j: int| q + 1 <= j < e implies #[trigger] s[j] != c by {
        assert(s[q + (j - q)] == x[j - q]);
        assert(x[j - q] == w[j - q - 1]);
    }
    lemma_next_at(s, c, q + 1, e);
    assert(s.subrange(q + 1, e) =~= w) by {
        assert forall|j: int| 0 <= j < w.len() implies s[q + 1 + j] == #[trigger] w[j] by {
            assert(x[1 + j] == w[j]);
            assert(s[q + (1 + j)] == x[1 + j]);
        }
    }
}

proof fn lemma_next_at(s: Seq<char>, c: char, i: int, e: int)
    requires
        0 <= i <= e < s.len(),
        s[e] == c,
        forall|j: int| i <= j < e ==> #[trigger] s[j] != c,
    ensures
        next_at(s, c, i) == Some(e),
    decreases e - i,
{
    if i < e {
        lemma_next_at(s, c, i + 1, e);
    }
}

/// What stands for the real beyond all is read as one number.
proof fn lemma_beyond_reads(s: Seq<char>, t: RealsV, q: int)
    requires
        stands_at(s, q, "1e999"@),
        q + 5 == s.len() || parts_from(TokV::Int(0), s[q + 5]),
    ensures
        "1e999"@.len() == 5,
        !is_blank(s[q]),
        s[q] != '-',
        token_at(s, t, q) == (match number_token(t, "1e999"@) {
            Ok(tok) => Ok(StepV { tok, next: q + 5 }),
            Err(e) => Err(e),
        }),
        !all_plain("1e999"@),
{
    reveal_strlit("1e999");
    let x = "1e999"@;
    lemma_stands(s, q, x);
    assert(s[q + 0] == x[0]);
    assert(s[q + 1] == x[1]);
    assert(s[q + 2] == x[2]);
    assert(s[q + 3] == x[3]);
    assert(s[q + 4] == x[4]);
    lemma_mantissa_end(s, q, q + 1);
    lemma_digits_end(s, q + 2, q + 5);
    assert(number_end(s, q) == q + 5);
    assert(!is_digit(x[1]));
}

proof fn lemma_number_reads(s: Seq<char>, t: RealsV, q: int, x: Seq<char>)
    requires
        stands_at(s, q, x),
        x.len() > 0,
        is_digit(x[0]),
        forall|i: int| 0 <= i < x.len() ==> is_digit(#[trigger] x[i]) || x[i] == '.',
        q + x.len() == s.len() || parts_from(TokV::Int(0), s[q + x.len()]),
    ensures
        !is_blank(s[q]),
        s[q] != '-',
        token_at(s, t, q) == (match number_token(t, x) {
            Ok(tok) => Ok(StepV { tok, next: q + x.len() }),
            Err(e) => Err(e),
        }),
{
    lemma_stands(s, q, x);
    let e = q + x.len();
    assert(s[q + 0] == x[0]);
    assert forall|j: int| q <= j < e implies is_digit(#[trigger] s[j]) || s[j] == '.' by {
        assert(s[q + (j - q)] == x[j - q]);
    }
    lemma_mantissa_end(s, q, e);
    assert(number_end(s, q) == e);
}

proof fn lemma_pointed(t: RealsV, b: u64)
    requires
        b != INF_BITS,
        real_literal(t, b) is Ok,
    ensures
        !all_plain(real_literal(t, b)->Ok_0),
{
    reveal_strlit(".0");
    let x = shown(t, AskV::Show(b))->Ok_0;
    if all_plain(x) {
        let y = x + ".0"@;
        assert(y[x.len() as int] == '.');
        assert(!is_digit(y[x.len() as int]));
    }
}

/// A token that says all of itself is read back where its text stands.
proof fn lemma_token_reads(s: Seq<char>, t: RealsV, q: int, k: TokV, x: Seq<char>)
    requires
        says_all(t, k),
        token_text(t, k) == Ok::<Seq<char>, StopV>(x),
        stands_at(s, q, x),
        q + x.len() == s.len() || parts_from(k, s[q + x.len()]),
    ensures
        x.len() > 0,
        !is_blank(s[q]),
        !(s[q] == '-' && at(s, q + 1, '-')),
        token_at(s, t, q) == Ok::<StepV, StopV>(StepV { tok: k, next: q + x.len() }),
{
    let e = q + x.len();
    lemma_stands(s, q, x);
    match k {
        TokV::Sym(y) => {
            lemma_symbol_reads(s, q, y);
        },
        TokV::Word(w) => {
            reveal_strlit("\"");
            reveal_strlit("`");
            if stands_bare(w) {
                assert(s[q + 0] == x[0]);
                assert forall|j: int| q <= j < e implies in_word(#[trigger] s[j]) by {
                    assert(s[q + (j - q)] == x[j - q]);
                }
                lemma_word_end(s, q, e);
            } else if !w.contains('"') {
                assert(x =~= seq!['"'] + w + seq!['"']);
                lemma_quoted_reads(s, t, q, w, '"');
            } else {
                assert(x =~= seq!['`'] + w + seq!['`']);
                lemma_quoted_reads(s, t, q, w, '`');
            }
        },
        TokV::NamedParam(w) => {
            reveal_strlit(":");
            assert(s[q + 0] == x[0]);
            assert(x[0] == ':');
            assert forall|j: int| q + 1 <= j < e implies in_word(#[trigger] s[j]) by {
                assert(s[q + (j - q)] == x[j - q]);
                assert(x[j - q] == w[j - q - 1]);
            }
            assert(in_word(s[q + 1]));
            lemma_word_end(s, q + 1, e);
            assert(s.subrange(q + 1, e) =~= w) by {
                assert forall|j: int| 0 <= j < w.len() implies s[q + 1 + j] == #[trigger] w[j] by {
                    assert(x[1 + j] == w[j]);
                    assert(s[q + (1 + j)] == x[1 + j]);
                }
            }
        },
        TokV::NumParam(n) => {
            reveal_strlit("$");
            let d = nat_text(n as nat);
            lemma_nat_text(n as nat);
            assert(s[q + 0] == x[0]);
            assert(x[0] == '$');
            assert forall|j: int| q + 1 <= j < e implies is_digit(#[trigger] s[j]) by {
                assert(s[q + (j - q)] == x[j - q]);
                assert(x[j - q] == d[j - q - 1]);
            }
            lemma_digits_end(s, q + 1, e);
            assert(s.subrange(q + 1, e) =~= d) by {
                assert forall|j: int| 0 <= j < d.len() implies s[q + 1 + j] == #[trigger] d[j] by {
                    assert(x[1 + j] == d[j]);
                    assert(s[q + (1 + j)] == x[1 + j]);
                }
            }
            assert(is_digit(d[0]));
            assert(int_of_text(d) == Some(n as int));
        },
        TokV::Int(n) => {
            lemma_nat_text(n as nat);
            assert(is_digit(x[0]));
            lemma_number_reads(s, t, q, x);
            assert(int_of_text(x) == Some(n as int));
            assert(all_plain(x));
        },
        TokV::Real(b) => {
            if b == INF_BITS {
                reveal_strlit("1e999");
                lemma_beyond_reads(s, t, q);
            } else {
                lemma_number_reads(s, t, q, x);
                lemma_pointed(t, b);
            }
        },
        TokV::Str(z) => {
            reveal_strlit("'");
            let v = choose|o: Seq<char>| z == #[trigger] bytes_from(o, 0);
            assert(z.subrange(0, z.len() as int) =~= z);
            lemma_rejoined(z, v, 0, 0, Seq::empty());
            assert(Seq::<char>::empty() + v.skip(0) =~= v);
            let none = Seq::<char>::empty();
            let d = quotes_doubled(v, 0, none);
            let y = d.push('\'');
            assert(x =~= seq!['\''] + y);
            assert(s[q + 0] == x[0]);
            assert(s.subrange(q + 1, q + 1 + y.len()) =~= y) by {
                assert forall|j: int| 0 <= j < y.len() implies s[q + 1 + j] == #[trigger] y[j] by {
                    assert(x[1 + j] == y[j]);
                    assert(s[q + (1 + j)] == x[1 + j]);
                }
            }
            lemma_string_reads(s, q + 1, v, 0, none);
            assert(none + z =~= z);
        },
    }
}

// ---- lists of tokens ------------------------------------------------------------------------------

/// What a written list holds of the token at `k`: its text, and the blank before it.
pub open spec fn piece(t: RealsV, toks: Seq<TokV>, k: int, tight: bool) -> Seq<char> {
    (if spaced(toks, 0, k, tight) {
        seq![' ']
    } else {
        Seq::<char>::empty()
    }) + token_text(t, toks[k])->Ok_0
}

pub open spec fn pieces(t: RealsV, toks: Seq<TokV>, k: int, tight: bool) -> Seq<char>
    decreases toks.len() - k,
{
    if k < 0 || k >= toks.len() {
        Seq::empty()
    } else {
        piece(t, toks, k, tight) + pieces(t, toks, k + 1, tight)
    }
}

/// Every token says all of itself; where names are closed up, no number stands
/// before a point.
pub open spec fn all_say(t: RealsV, toks: Seq<TokV>, tight: bool) -> bool {
    &&& forall|i: int| 0 <= i < toks.len() ==> says_all(t, #[trigger] toks[i])
    &&& tight ==> forall|i: int|
        0 < i < toks.len() && #[trigger] toks[i] == TokV::Sym(Sym::Dot) ==> !(toks[i - 1] is Int)
            && !(toks[i - 1] is Real)
}

proof fn lemma_text(t: RealsV, k: TokV)
    requires
        says_all(t, k),
    ensures
        token_text(t, k) is Ok,
        token_text(t, k)->Ok_0.len() > 0,
{
    match k {
        TokV::Sym(y) => {
            let s = symbol_text(y);
            assert(s.subrange(0, s.len() as int) =~= s);
            lemma_symbol_reads(s, 0, y);
        },
        TokV::Int(n) => {
            lemma_nat_text(n as nat);
        },
        TokV::NumParam(n) => {
            reveal_strlit("$");
        },
        TokV::NamedParam(w) => {
            reveal_strlit(":");
        },
        TokV::Str(v) => {
            reveal_strlit("'");
        },
        TokV::Word(w) => {
            reveal_strlit("\"");
            reveal_strlit("`");
        },
        TokV::Real(b) => {
            reveal_strlit("1e999");
        },
    }
}

proof fn lemma_written(t: RealsV, toks: Seq<TokV>, k: int, tight: bool, acc: Seq<char>)
    requires
        0 <= k,
        all_say(t, toks, tight),
    ensures
        written_from(t, toks, 0, toks.len() as int, k, tight, acc) == Ok::<Seq<char>, StopV>(
            acc + pieces(t, toks, k, tight),
        ),
    decreases toks.len() - k,
{
    if k < toks.len() {
        lemma_text(t, toks[k]);
        let x = token_text(t, toks[k])->Ok_0;
        let next = if spaced(toks, 0, k, tight) {
            acc.push(' ') + x
        } else {
            acc + x
        };
        lemma_written(t, toks, k + 1, tight, next);
        assert(next =~= acc + piece(t, toks, k, tight));
        assert(next + pieces(t, toks, k + 1, tight) =~= acc + pieces(t, toks, k, tight));
    } else {
        assert(acc + Seq::<char>::empty() =~= acc);
    }
}

/// What follows a token in a written list does not become part of it.
proof fn lemma_parts(t: RealsV, toks: Seq<TokV>, k: int, tight: bool)
    requires
        0 < k < toks.len(),
        all_say(t, toks, tight),
    ensures
        pieces(t, toks, k, tight).len() > 0,
        parts_from(toks[k - 1], pieces(t, toks, k, tight)[0]),
{
    lemma_text(t, toks[k]);
    let x = token_text(t, toks[k])->Ok_0;
    let c = pieces(t, toks, k, tight)[0];
    assert(c == piece(t, toks, k, tight)[0]);
    if spaced(toks, 0, k, tight) {
        assert(c == ' ');
    } else {
        assert(c == x[0]);
        reveal_strlit(",");
        reveal_strlit(")");
        reveal_strlit("::");
        reveal_strlit(".");
        reveal_strlit("(");
        assert(tight && toks[k] == TokV::Sym(Sym::Dot) ==> !(toks[k - 1] is Int) && !(toks[k
            - 1] is Real));
    }
}

proof fn lemma_reads(
    t: RealsV,
    toks: Seq<TokV>,
    k: int,
    tight: bool,
    p: Seq<char>,
    acc: Seq<TokV>,
)
    requires
        0 <= k <= toks.len(),
        all_say(t, toks, tight),
    ensures
        lexed_from(p + pieces(t, toks, k, tight), t, p.len() as int, acc) == Ok::<
            Seq<TokV>,
            StopV,
        >((acc + toks.skip(k)).push(TokV::Sym(Sym::Eof))),
    decreases toks.len() - k,
{
    let s = p + pieces(t, toks, k, tight);
    if k < toks.len() {
        lemma_text(t, toks[k]);
        let x = token_text(t, toks[k])->Ok_0;
        let one = piece(t, toks, k, tight);
        let rest = pieces(t, toks, k + 1, tight);
        let gap: int = if spaced(toks, 0, k, tight) {
            1
        } else {
            0
        };
        let q = p.len() + gap;
        let after = p + one;
        assert(s =~= after + rest);
        assert(s.subrange(q, q + x.len()) =~= x);
        if k + 1 < toks.len() {
            lemma_parts(t, toks, k + 1, tight);
            assert(s[q + x.len()] == rest[0]);
        }
        lemma_token_reads(s, t, q, toks[k], x);
        lemma_reads(t, toks, k + 1, tight, after, acc.push(toks[k]));
        assert(acc.push(toks[k]) + toks.skip(k + 1) =~= acc + toks.skip(k));
        assert(lexed_from(s, t, q, acc) == lexed_from(
            s,
            t,
            after.len() as int,
            acc.push(toks[k]),
        ));
        if gap == 1 {
            assert(s[p.len() as int] == ' ');
            assert(lexed_from(s, t, p.len() as int, acc) == lexed_from(s, t, q, acc));
        }
    } else {
        assert(acc + toks.skip(k) =~= acc);
    }
}

proof fn lemma_part_written(
    t: RealsV,
    toks: Seq<TokV>,
    from: int,
    to: int,
    i: int,
    tight: bool,
    acc: Seq<char>,
)
    requires
        0 <= from <= i <= to <= toks.len(),
    ensures
        written_from(t, toks, from, to, i, tight, acc) == written_from(
            t,
            toks.subrange(from, to),
            0,
            to - from,
            i - from,
            tight,
            acc,
        ),
    decreases to - i,
{
    if i < to {
        let part = toks.subrange(from, to);
        assert(part[i - from] == toks[i]);
        if i > from {
            assert(part[i - from - 1] == toks[i - 1]);
        }
        match token_text(t, toks[i]) {
            Ok(x) => {
                let next = if spaced(toks, from, i, tight) {
                    acc.push(' ') + x
                } else {
                    acc + x
                };
                lemma_part_written(t, toks, from, to, i + 1, tight, next);
            },
            Err(_) => {},
        }
    }
}

/// Tokens that were written down, such as the condition of a `CHECK`, read back as
/// the same tokens.
pub proof fn law_written_tokens_read_back(
    t: RealsV,
    toks: Seq<TokV>,
    from: int,
    to: int,
    tight: bool,
)
    requires
        0 <= from <= to <= toks.len(),
        all_say(t, toks.subrange(from, to), tight),
    ensures
        written_from(t, toks, from, to, from, tight, Seq::empty()) matches Ok(text) && lexed(text, t)
            == Ok::<Seq<TokV>, StopV>(toks.subrange(from, to).push(TokV::Sym(Sym::Eof))),
{
    let none = Seq::<char>::empty();
    let part = toks.subrange(from, to);
    lemma_part_written(t, toks, from, to, from, tight, none);
    lemma_written(t, part, 0, tight, none);
    lemma_reads(t, part, 0, tight, none, Seq::empty());
    assert(Seq::<TokV>::empty() + part.skip(0) =~= part);
    assert(none + pieces(t, part, 0, tight) =~= pieces(t, part, 0, tight));
}

// ---- tokens of a text -----------------------------------------------------------------------------

proof fn lemma_bytes_push(o: Seq<char>, c: char, i: int)
    requires
        0 <= i <= o.len(),
    ensures
        bytes_from(o.push(c), i) == bytes_from(o, i) + byte_chars(c),
    decreases o.len() - i,
{
    let p = o.push(c);
    if i < o.len() {
        lemma_bytes_push(o, c, i + 1);
        assert(p[i] == o[i]);
        assert(bytes_from(p, i) =~= bytes_from(o, i) + byte_chars(c));
    } else {
        assert(bytes_from(p, i + 1) =~= Seq::<char>::empty());
        assert(bytes_from(p, i) =~= byte_chars(c));
        assert(bytes_from(o, i) + byte_chars(c) =~= byte_chars(c));
    }
}

proof fn lemma_literal_push(acc: Seq<char>, c: char)
    requires
        is_literal(acc),
    ensures
        is_literal(acc + byte_chars(c)),
{
    let o = choose|o: Seq<char>| acc == #[trigger] bytes_from(o, 0);
    lemma_bytes_push(o, c, 0);
    assert(acc + byte_chars(c) == bytes_from(o.push(c), 0));
}

proof fn lemma_string_is_literal(s: Seq<char>, i: int, acc: Seq<char>)
    requires
        is_literal(acc),
    ensures
        string_from(s, i, acc) matches Ok(step) ==> (step.tok matches TokV::Str(v) && is_literal(v)),
    decreases s.len() - i,
{
    if 0 <= i < s.len() {
        if s[i] == '\'' {
            if at(s, i + 1, '\'') {
                lemma_literal_push(acc, '\'');
                assert(acc.push('\'') =~= acc + byte_chars('\''));
                lemma_string_is_literal(s, i + 2, acc.push('\''));
            }
        } else {
            lemma_literal_push(acc, s[i]);
            lemma_string_is_literal(s, i + 1, acc + byte_chars(s[i]));
        }
    }
}

proof fn lemma_word_run(s: Seq<char>, i: int)
    requires
        0 <= i <= s.len(),
    ensures
        i <= word_end(s, i) <= s.len(),
        forall|j: int| i <= j < word_end(s, i) ==> in_word(#[trigger] s[j]),
    decreases s.len() - i,
{
    if i < s.len() && in_word(s[i]) {
        lemma_word_run(s, i + 1);
    }
}

proof fn lemma_quoted_run(s: Seq<char>, c: char, i: int)
    requires
        0 <= i,
    ensures
        next_at(s, c, i) matches Some(e) ==> i <= e < s.len() && forall|j: int|
            i <= j < e ==> #[trigger] s[j] != c,
    decreases s.len() - i,
{
    if i < s.len() && s[i] != c {
        lemma_quoted_run(s, c, i + 1);
    }
}

/// What stands in a text can stand in one.
proof fn lemma_token_stands(s: Seq<char>, t: RealsV, i: int)
    requires
        0 <= i < s.len(),
    ensures
        token_at(s, t, i) matches Ok(step) ==> can_stand(step.tok),
{
    let c = s[i];
    if symbol_at(s, i) is Some {
    } else if c == ':' {
        lemma_word_run(s, i + 1);
        let e = word_end(s, i + 1);
        let w = s.subrange(i + 1, e);
        assert forall|j: int| 0 <= j < w.len() implies in_word(#[trigger] w[j]) by {
            assert(w[j] == s[i + 1 + j]);
        }
    } else if c == '\'' {
        assert(is_literal(Seq::empty())) by {
            assert(Seq::<char>::empty() == bytes_from(Seq::empty(), 0));
        }
        lemma_string_is_literal(s, i + 1, Seq::empty());
    } else if c == '"' || c == '`' {
        lemma_quoted_run(s, c, i + 1);
        if let Some(e) = next_at(s, c, i + 1) {
            let w = s.subrange(i + 1, e);
            assert(!w.contains(c)) by {
                if w.contains(c) {
                    let j = choose|j: int| 0 <= j < w.len() && w[j] == c;
                    assert(s[i + 1 + j] == c);
                }
            }
        }
    } else if c == '_' || is_alpha(c) {
        lemma_word_run(s, i);
        lemma_word_run(s, i + 1);
        let e = word_end(s, i);
        let w = s.subrange(i, e);
        assert(in_word(s[i]));
        assert(e > i);
        assert(w[0] == s[i]);
        assert forall|j: int| 0 <= j < w.len() implies in_word(#[trigger] w[j]) by {
            assert(w[j] == s[i + j]);
        }
    } else if is_digit(c) {
        let text = s.subrange(i, number_end(s, i));
        if all_plain(text) && text.len() > 0 {
            assert(is_digit(text[0]));
        }
    }
}

spec fn all_stand(toks: Seq<TokV>) -> bool {
    forall|k: int| 0 <= k < toks.len() ==> can_stand(#[trigger] toks[k])
}

proof fn lemma_lexed_stand(s: Seq<char>, t: RealsV, i: int, acc: Seq<TokV>)
    requires
        0 <= i,
        all_stand(acc),
    ensures
        lexed_from(s, t, i, acc) matches Ok(v) ==> v.len() > 0 && all_stand(v.drop_last()),
    decreases s.len() - i,
{
    if i >= s.len() {
        let v = acc.push(TokV::Sym(Sym::Eof));
        assert(v.drop_last() =~= acc);
    } else if is_blank(s[i]) {
        lemma_lexed_stand(s, t, i + 1, acc);
    } else if s[i] == '-' && at(s, i + 1, '-') {
        lemma_lexed_stand(s, t, onward(i, line_end(s, i), s.len() as int), acc);
    } else {
        lemma_token_stands(s, t, i);
        if let Ok(step) = token_at(s, t, i) {
            lemma_lexed_stand(s, t, onward(i, step.next, s.len() as int), acc.push(step.tok));
        }
    }
}

/// Whatever stands in a text, such as the condition of a `CHECK` in a statement, can be
/// written down token by token and reads back as the same tokens. The host has to read
/// its reals back, and in a tight text no number may stand before a point.
pub proof fn law_a_text_is_kept(
    t: RealsV,
    text: Seq<char>,
    toks: Seq<TokV>,
    from: int,
    to: int,
    tight: bool,
)
    requires
        lexed(text, t) == Ok::<Seq<TokV>, StopV>(toks),
        0 <= from <= to < toks.len(),
        forall|i: int|
            from <= i < to ==> (#[trigger] toks[i] matches TokV::Real(b) ==> real_reads_back(t, b)),
        tight ==> forall|i: int|
            from < i < to && #[trigger] toks[i] == TokV::Sym(Sym::Dot) ==> !(toks[i - 1] is Int)
                && !(toks[i - 1] is Real),
    ensures
        written_from(t, toks, from, to, from, tight, Seq::empty()) matches Ok(x) && lexed(x, t)
            == Ok::<Seq<TokV>, StopV>(toks.subrange(from, to).push(TokV::Sym(Sym::Eof))),
{
    let part = toks.subrange(from, to);
    lemma_lexed_stand(text, t, 0, Seq::empty());
    assert forall|i: int| 0 <= i < part.len() implies says_all(t, #[trigger] part[i]) by {
        assert(part[i] == toks.drop_last()[from + i]);
        assert(part[i] == toks[from + i]);
    }
    assert forall|i: int|
        tight && 0 < i < part.len() && #[trigger] part[i] == TokV::Sym(Sym::Dot) implies !(part[i
        - 1] is Int) && !(part[i - 1] is Real) by {
        assert(toks[from + i] == part[i]);
        assert(toks[from + i - 1] == part[i - 1]);
    }
    law_written_tokens_read_back(t, toks, from, to, tight);
}

} // verus!
