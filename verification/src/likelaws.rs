//! Which texts a pattern matches.
use vstd::prelude::*;
use crate::eval::like_value;
use crate::ops::{folded, folded_text, like_matches, like_of, like_tokens, LikeTok};
use crate::text::lower_char;
use crate::value::ValueV;

verus! {

/// A text whose characters all stand for themselves in a pattern.
pub open spec fn literal(p: Seq<char>, esc: Option<char>) -> bool {
    forall|i: int|
        0 <= i < p.len() ==> #[trigger] p[i] != '%' && p[i] != '_' && esc != Some(p[i])
}

spec fn lits(p: Seq<char>, ins: bool) -> Seq<LikeTok> {
    Seq::new(p.len(), |i: int| LikeTok::Lit(folded(p[i], ins)))
}

proof fn lemma_literal_tokens(
    before: Seq<char>,
    p: Seq<char>,
    behind: Seq<char>,
    esc: Option<char>,
    ins: bool,
    i: int,
    acc: Seq<LikeTok>,
)
    requires
        literal(p, esc),
        0 <= i <= p.len(),
    ensures
        like_tokens(before + p + behind, esc, ins, before.len() + i, acc) == like_tokens(
            before + p + behind,
            esc,
            ins,
            (before.len() + p.len()) as int,
            acc + lits(p.skip(i), ins),
        ),
    decreases p.len() - i,
{
    let all = before + p + behind;
    if i < p.len() {
        assert(all[before.len() + i] == p[i]);
        let tok = LikeTok::Lit(folded(p[i], ins));
        lemma_literal_tokens(before, p, behind, esc, ins, i + 1, acc.push(tok));
        assert(acc.push(tok) + lits(p.skip(i + 1), ins) =~= acc + lits(p.skip(i), ins));
    } else {
        assert(acc + lits(p.skip(i), ins) =~= acc);
    }
}

proof fn lemma_match_literals(s: Seq<char>, p: Seq<char>, toks: Seq<LikeTok>, ins: bool)
    ensures
        like_matches(s, lits(p, ins) + toks) == (s.len() >= p.len() && s.take(p.len() as int)
            == folded_text(p, ins) && like_matches(s.skip(p.len() as int), toks)),
    decreases p.len(),
{
    let all = lits(p, ins) + toks;
    if p.len() == 0 {
        assert(all =~= toks);
        assert(s.skip(0) =~= s);
        assert(s.take(0) =~= folded_text(p, ins));
    } else {
        assert(all[0] == LikeTok::Lit(folded(p[0], ins)));
        assert(all.drop_first() =~= lits(p.drop_first(), ins) + toks);
        if s.len() > 0 {
            let t = s.drop_first();
            lemma_match_literals(t, p.drop_first(), toks, ins);
            if s.len() >= p.len() {
                assert(t.skip(p.len() - 1) =~= s.skip(p.len() as int));
                if s[0] == folded(p[0], ins) && t.take(p.len() - 1) == folded_text(
                    p.drop_first(),
                    ins,
                ) {
                    assert forall|i: int| 0 <= i < p.len() implies s.take(p.len() as int)[i]
                        == folded_text(p, ins)[i] by {
                        if i > 0 {
                            assert(t.take(p.len() - 1)[i - 1] == folded_text(
                                p.drop_first(),
                                ins,
                            )[i - 1]);
                        }
                    }
                    assert(s.take(p.len() as int) =~= folded_text(p, ins));
                }
                if s.take(p.len() as int) == folded_text(p, ins) {
                    assert(s.take(p.len() as int)[0] == folded_text(p, ins)[0]);
                    assert forall|i: int| 0 <= i < p.len() - 1 implies t.take(p.len() - 1)[i]
                        == folded_text(p.drop_first(), ins)[i] by {
                        assert(s.take(p.len() as int)[i + 1] == folded_text(p, ins)[i + 1]);
                    }
                    assert(t.take(p.len() - 1) =~= folded_text(p.drop_first(), ins));
                }
            }
        }
    }
}

/// A run of any length stands before what matches the rest.
proof fn lemma_match_any(s: Seq<char>, toks: Seq<LikeTok>)
    ensures
        like_matches(s, seq![LikeTok::Any] + toks) == exists|k: int|
            0 <= k <= s.len() && like_matches(#[trigger] s.skip(k), toks),
    decreases s.len(),
{
    let all = seq![LikeTok::Any] + toks;
    assert(all[0] == LikeTok::Any);
    assert(all.drop_first() =~= toks);
    assert(s.skip(0) =~= s);
    if s.len() > 0 {
        let t = s.drop_first();
        lemma_match_any(t, toks);
        if like_matches(t, all) {
            let k = choose|k: int| 0 <= k <= t.len() && like_matches(#[trigger] t.skip(k), toks);
            assert(t.skip(k) =~= s.skip(k + 1));
        }
        if exists|k: int| 0 <= k <= s.len() && like_matches(#[trigger] s.skip(k), toks) {
            let k = choose|k: int| 0 <= k <= s.len() && like_matches(#[trigger] s.skip(k), toks);
            if k > 0 {
                assert(t.skip(k - 1) =~= s.skip(k));
            }
        }
    } else if exists|k: int| 0 <= k <= s.len() && like_matches(#[trigger] s.skip(k), toks) {
        let k = choose|k: int| 0 <= k <= s.len() && like_matches(#[trigger] s.skip(k), toks);
        assert(s.skip(k) =~= s);
    }
}

proof fn lemma_folded(s: Seq<char>)
    ensures
        folded_text(s, false) == s,
{
    assert(folded_text(s, false) =~= s);
}

/// The tokens of two literal texts with one character between them.
proof fn lemma_tokens_between(
    a: Seq<char>,
    c: char,
    b: Seq<char>,
    esc: Option<char>,
    ins: bool,
    tok: LikeTok,
)
    requires
        literal(a, esc),
        literal(b, esc),
        esc != Some(c),
        c == '%' && tok == LikeTok::Any || c == '_' && tok == LikeTok::One,
    ensures
        like_tokens(a + seq![c] + b, esc, ins, 0, Seq::empty()) == lits(a, ins) + (seq![tok]
            + lits(b, ins)),
{
    let all = a + seq![c] + b;
    let none = Seq::<char>::empty();
    assert(none + a + (seq![c] + b) =~= all);
    lemma_literal_tokens(none, a, seq![c] + b, esc, ins, 0, Seq::empty());
    assert(a.skip(0) =~= a);
    assert(Seq::<LikeTok>::empty() + lits(a, ins) =~= lits(a, ins));
    assert(all[a.len() as int] == c);
    let mid = lits(a, ins).push(tok);
    assert((a + seq![c]) + b + none =~= all);
    lemma_literal_tokens(a + seq![c], b, none, esc, ins, 0, mid);
    assert(b.skip(0) =~= b);
    assert(mid + lits(b, ins) =~= lits(a, ins) + (seq![tok] + lits(b, ins)));
}

/// A pattern without wildcards matches the text that it is, and no other.
pub proof fn law_like_literal(s: Seq<char>, p: Seq<char>, esc: Option<char>)
    requires
        literal(p, esc),
    ensures
        like_of(s, p, esc, false) <==> s == p,
{
    let none = Seq::<char>::empty();
    lemma_folded(s);
    lemma_folded(p);
    assert(none + p + none =~= p);
    lemma_literal_tokens(none, p, none, esc, false, 0, Seq::empty());
    assert(p.skip(0) =~= p);
    assert(Seq::<LikeTok>::empty() + lits(p, false) =~= lits(p, false) + Seq::<LikeTok>::empty());
    lemma_match_literals(s, p, Seq::empty(), false);
    if s.len() == p.len() {
        assert(s.take(p.len() as int) =~= s);
    }
}

/// `%` stands for any run of characters: what stands before it begins the text, what
/// stands behind it ends the text, and the two do not overlap.
pub proof fn law_like_percent(s: Seq<char>, a: Seq<char>, b: Seq<char>, esc: Option<char>)
    requires
        literal(a, esc),
        literal(b, esc),
        esc != Some('%'),
    ensures
        like_of(s, a + seq!['%'] + b, esc, false) <==> s.len() >= a.len() + b.len() && s.take(
            a.len() as int,
        ) == a && s.skip(s.len() - b.len()) == b,
{
    lemma_tokens_between(a, '%', b, esc, false, LikeTok::Any);
    lemma_folded(s);
    lemma_folded(a);
    lemma_folded(b);
    let rest = seq![LikeTok::Any] + lits(b, false);
    lemma_match_literals(s, a, rest, false);
    if s.len() >= a.len() {
        let t = s.skip(a.len() as int);
        lemma_match_any(t, lits(b, false));
        assert(lits(b, false) + Seq::<LikeTok>::empty() =~= lits(b, false));
        if like_matches(t, rest) {
            let k = choose|k: int|
                0 <= k <= t.len() && like_matches(#[trigger] t.skip(k), lits(b, false));
            lemma_match_literals(t.skip(k), b, Seq::empty(), false);
            assert(t.skip(k).take(b.len() as int) =~= t.skip(k));
            assert(s.skip(s.len() - b.len()) =~= t.skip(k));
        }
        if s.len() >= a.len() + b.len() && s.skip(s.len() - b.len()) == b {
            let k = t.len() - b.len();
            assert(t.skip(k) =~= b);
            lemma_match_literals(t.skip(k), b, Seq::empty(), false);
            assert(b.take(b.len() as int) =~= b);
            assert(like_matches(t.skip(k), lits(b, false)));
        }
    }
}

/// `p%` matches the texts that begin with `p`.
pub proof fn law_like_prefix(s: Seq<char>, p: Seq<char>, esc: Option<char>)
    requires
        literal(p, esc),
        esc != Some('%'),
    ensures
        like_of(s, p.push('%'), esc, false) <==> s.len() >= p.len() && s.take(p.len() as int) == p,
{
    law_like_percent(s, p, Seq::empty(), esc);
    assert(p + seq!['%'] + Seq::<char>::empty() =~= p.push('%'));
    assert(s.skip(s.len() as int) =~= Seq::<char>::empty());
}

/// `%p` matches the texts that end with `p`.
pub proof fn law_like_suffix(s: Seq<char>, p: Seq<char>, esc: Option<char>)
    requires
        literal(p, esc),
        esc != Some('%'),
    ensures
        like_of(s, seq!['%'] + p, esc, false) <==> s.len() >= p.len() && s.skip(s.len() - p.len())
            == p,
{
    law_like_percent(s, Seq::empty(), p, esc);
    assert(Seq::<char>::empty() + seq!['%'] + p =~= seq!['%'] + p);
    assert(s.take(0) =~= Seq::<char>::empty());
}

/// `%p%` matches the texts that hold `p` somewhere.
pub proof fn law_like_contains(s: Seq<char>, p: Seq<char>, esc: Option<char>)
    requires
        literal(p, esc),
        esc != Some('%'),
    ensures
        like_of(s, seq!['%'] + p + seq!['%'], esc, false) <==> exists|k: int|
            0 <= k <= s.len() - p.len() && #[trigger] s.subrange(k, k + p.len()) == p,
{
    let none = Seq::<char>::empty();
    let one = seq!['%'];
    let all = one + p + one;
    lemma_folded(s);
    lemma_folded(p);
    assert(all[0] == '%');
    let first = Seq::<LikeTok>::empty().push(LikeTok::Any);
    lemma_literal_tokens(one, p, one, esc, false, 0, first);
    assert(p.skip(0) =~= p);
    assert(all[p.len() + 1int] == '%');
    let toks = like_tokens(all, esc, false, 0, Seq::empty());
    let rest = lits(p, false) + seq![LikeTok::Any];
    assert((first + lits(p, false)).push(LikeTok::Any) =~= seq![LikeTok::Any] + rest);
    assert(like_tokens(all, esc, false, p.len() + 2int, seq![LikeTok::Any] + rest) == seq![
        LikeTok::Any,
    ] + rest);
    lemma_match_any(s, rest);
    assert(seq![LikeTok::Any] + Seq::<LikeTok>::empty() =~= seq![LikeTok::Any]);
    assert forall|t: Seq<char>| #[trigger] like_matches(t, seq![LikeTok::Any]) by {
        lemma_match_any(t, Seq::empty());
        assert(t.skip(t.len() as int) =~= none);
        assert(like_matches(t.skip(t.len() as int), Seq::<LikeTok>::empty()));
    }
    if like_matches(s, toks) {
        let k = choose|k: int| 0 <= k <= s.len() && like_matches(#[trigger] s.skip(k), rest);
        lemma_match_literals(s.skip(k), p, seq![LikeTok::Any], false);
        assert(s.skip(k).take(p.len() as int) =~= s.subrange(k, k + p.len()));
    }
    if exists|k: int| 0 <= k <= s.len() - p.len() && #[trigger] s.subrange(k, k + p.len()) == p {
        let k = choose|k: int|
            0 <= k <= s.len() - p.len() && #[trigger] s.subrange(k, k + p.len()) == p;
        lemma_match_literals(s.skip(k), p, seq![LikeTok::Any], false);
        assert(s.skip(k).take(p.len() as int) =~= s.subrange(k, k + p.len()));
        assert(like_matches(s.skip(k), rest));
    }
}

/// `_` stands for one character, whichever it is.
pub proof fn law_like_underscore(s: Seq<char>, a: Seq<char>, b: Seq<char>, esc: Option<char>)
    requires
        literal(a, esc),
        literal(b, esc),
        esc != Some('_'),
    ensures
        like_of(s, a + seq!['_'] + b, esc, false) <==> s.len() == a.len() + 1 + b.len() && s.take(
            a.len() as int,
        ) == a && s.skip(a.len() + 1int) == b,
{
    lemma_tokens_between(a, '_', b, esc, false, LikeTok::One);
    lemma_folded(s);
    lemma_folded(a);
    lemma_folded(b);
    let rest = seq![LikeTok::One] + lits(b, false);
    lemma_match_literals(s, a, rest, false);
    if s.len() >= a.len() {
        let t = s.skip(a.len() as int);
        assert(rest[0] == LikeTok::One);
        assert(rest.drop_first() =~= lits(b, false) + Seq::<LikeTok>::empty());
        if t.len() > 0 {
            let u = t.drop_first();
            lemma_match_literals(u, b, Seq::empty(), false);
            assert(u =~= s.skip(a.len() + 1int));
            if u.len() == b.len() {
                assert(u.take(b.len() as int) =~= u);
            }
        }
    }
}

/// The character behind the escape character stands for itself, be it a wildcard.
pub proof fn law_like_escape(s: Seq<char>, a: Seq<char>, b: Seq<char>, e: char, c: char)
    requires
        literal(a, Some(e)),
        literal(b, Some(e)),
    ensures
        like_of(s, a + seq![e, c] + b, Some(e), false) <==> s == a + seq![c] + b,
{
    let esc = Some(e);
    let none = Seq::<char>::empty();
    let all = a + seq![e, c] + b;
    let text = a + seq![c] + b;
    lemma_folded(s);
    lemma_folded(text);
    assert(none + a + (seq![e, c] + b) =~= all);
    lemma_literal_tokens(none, a, seq![e, c] + b, esc, false, 0, Seq::empty());
    assert(a.skip(0) =~= a);
    assert(Seq::<LikeTok>::empty() + lits(a, false) =~= lits(a, false));
    assert(all[a.len() as int] == e && all[a.len() + 1int] == c);
    let mid = lits(a, false).push(LikeTok::Lit(c));
    assert((a + seq![e, c]) + b + none =~= all);
    lemma_literal_tokens(a + seq![e, c], b, none, esc, false, 0, mid);
    assert(b.skip(0) =~= b);
    assert(mid + lits(b, false) =~= lits(text, false) + Seq::<LikeTok>::empty());
    lemma_match_literals(s, text, Seq::empty(), false);
    if s.len() == text.len() {
        assert(s.take(text.len() as int) =~= s);
    }
}

/// Where case does not count, a text that is matched is matched in every spelling, and
/// a pattern without wildcards matches the spellings of the text that it is.
pub proof fn law_ilike_ignores_case(s: Seq<char>, t: Seq<char>, p: Seq<char>, esc: Option<char>)
    requires
        s.len() == t.len(),
        forall|i: int| 0 <= i < s.len() ==> lower_char(#[trigger] s[i]) == lower_char(t[i]),
    ensures
        like_of(s, p, esc, true) == like_of(t, p, esc, true),
        literal(p, esc) ==> (like_of(s, p, esc, true) <==> s.len() == p.len() && forall|i: int|
            0 <= i < s.len() ==> lower_char(#[trigger] s[i]) == lower_char(p[i])),
{
    let none = Seq::<char>::empty();
    assert(folded_text(s, true) =~= folded_text(t, true));
    if literal(p, esc) {
        let f = folded_text(s, true);
        assert(none + p + none =~= p);
        lemma_literal_tokens(none, p, none, esc, true, 0, Seq::empty());
        assert(p.skip(0) =~= p);
        assert(Seq::<LikeTok>::empty() + lits(p, true) =~= lits(p, true) + Seq::<LikeTok>::empty());
        lemma_match_literals(f, p, Seq::empty(), true);
        if s.len() == p.len() {
            assert(f.take(p.len() as int) =~= f);
            if f == folded_text(p, true) {
                assert forall|i: int| 0 <= i < s.len() implies lower_char(#[trigger] s[i])
                    == lower_char(p[i]) by {
                    assert(f[i] == folded_text(p, true)[i]);
                }
            }
            if forall|i: int| 0 <= i < s.len() ==> lower_char(#[trigger] s[i]) == lower_char(p[i]) {
                assert(f =~= folded_text(p, true));
            }
        }
    }
}

/// `LIKE` is true, false, or, where an operand is no text, unknown; `NOT LIKE` is the
/// contrary.
pub proof fn law_like_is_three_valued(
    v: ValueV,
    p: ValueV,
    esc: Option<char>,
    insensitive: bool,
)
    ensures
        match (v, p) {
            (ValueV::Text(s), ValueV::Text(x)) => {
                &&& like_value(v, p, esc, false, insensitive) == ValueV::Int(
                    if like_of(s, x, esc, insensitive) {
                        1
                    } else {
                        0
                    },
                )
                &&& like_value(v, p, esc, true, insensitive) == ValueV::Int(
                    if like_of(s, x, esc, insensitive) {
                        0
                    } else {
                        1
                    },
                )
            },
            _ => like_value(v, p, esc, false, insensitive) is Null && like_value(
                v,
                p,
                esc,
                true,
                insensitive,
            ) is Null,
        },
{
}

} // verus!
