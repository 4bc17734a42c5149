//! How tightly operators bind: an expression that is written down with no more
//! parentheses than it needs is read back as it was.
use vstd::prelude::*;
use crate::asks::StopV;
use crate::grammar::{
    and_rest, between_tail, binary, bumped, cast_rest, compare_tail, concat_op, concat_rest,
    distance_op, distance_rest, joins_text, like_tail, negates, null_tail, onto, or_rest, p_and,
    p_cast, p_concat, p_distance, p_expr, p_not, p_primary, p_product, p_relation, p_sum, p_unary,
    product_op, product_rest, relation_op, relation_tail, sum_op, sum_rest, tok, tok_at, word_is,
    PS, Parsed, SrcV,
};
use crate::lex::{Sym, TokV};
use crate::sql::{BinOp, ExprV, UnOp};
use crate::text::{lower_char, lower_text, same_name};

verus! {

// ---- writing --------------------------------------------------------------------------------------

/// How tightly an operator binds.
pub open spec fn op_rank(op: BinOp) -> int {
    match op {
        BinOp::Or => 0,
        BinOp::And => 1,
        BinOp::Eq | BinOp::Ne | BinOp::Lt | BinOp::Le | BinOp::Gt | BinOp::Ge => 3,
        BinOp::VecL2 | BinOp::VecCosine | BinOp::VecIp => 4,
        BinOp::Concat => 5,
        BinOp::Add | BinOp::Sub => 6,
        BinOp::Mul | BinOp::Div | BinOp::Mod => 7,
    }
}

/// What is written for an operator.
pub open spec fn op_tok(op: BinOp) -> TokV {
    match op {
        BinOp::Or => TokV::Word("or"@),
        BinOp::And => TokV::Word("and"@),
        BinOp::Eq => TokV::Sym(Sym::Eq),
        BinOp::Ne => TokV::Sym(Sym::Ne),
        BinOp::Lt => TokV::Sym(Sym::Lt),
        BinOp::Le => TokV::Sym(Sym::Le),
        BinOp::Gt => TokV::Sym(Sym::Gt),
        BinOp::Ge => TokV::Sym(Sym::Ge),
        BinOp::VecL2 => TokV::Sym(Sym::VecL2),
        BinOp::VecCosine => TokV::Sym(Sym::VecCosine),
        BinOp::VecIp => TokV::Sym(Sym::VecIp),
        BinOp::Concat => TokV::Sym(Sym::Concat),
        BinOp::Add => TokV::Sym(Sym::Plus),
        BinOp::Sub => TokV::Sym(Sym::Minus),
        BinOp::Mul => TokV::Sym(Sym::Star),
        BinOp::Div => TokV::Sym(Sym::Slash),
        BinOp::Mod => TokV::Sym(Sym::Percent),
    }
}

/// Whether a word is a name and no keyword where an operand may stand.
pub open spec fn free_name(w: Seq<char>) -> bool {
    &&& !same_name(w, "null"@)
    &&& !same_name(w, "true"@)
    &&& !same_name(w, "false"@)
    &&& !same_name(w, "default"@)
    &&& !same_name(w, "case"@)
    &&& !same_name(w, "not"@)
    &&& !same_name(w, "select"@)
    &&& !same_name(w, "with"@)
}

/// Whether an expression is made of numbers, texts, names, operators and predicates.
pub open spec fn operators_only(e: ExprV) -> bool
    decreases e,
{
    match e {
        ExprV::Int(_) => true,
        ExprV::Str(_) => true,
        ExprV::Column(w) => free_name(w),
        ExprV::Unary { e, .. } => operators_only(*e),
        ExprV::Binary { l, r, .. } => operators_only(*l) && operators_only(*r),
        ExprV::IsNull { e, .. } => operators_only(*e),
        ExprV::Like { e, pattern, escape, .. } => operators_only(*e) && operators_only(*pattern)
            && escape is None,
        ExprV::Between { e, lo, hi, .. } => operators_only(*e) && operators_only(*lo)
            && operators_only(*hi),
        _ => false,
    }
}

/// How tightly the outermost part of an expression binds: `OR`, then `AND`, `NOT`,
/// comparisons and other predicates, distances, `||`, sums, products, signs, operands.
pub open spec fn rank(e: ExprV) -> int {
    match e {
        ExprV::Binary { op, .. } => op_rank(op),
        ExprV::Unary { op: UnOp::Not, .. } => 2,
        ExprV::Unary { op: UnOp::Neg, .. } => 8,
        ExprV::IsNull { .. } | ExprV::Like { .. } | ExprV::Between { .. } => 3,
        _ => 9,
    }
}

/// `NOT`, where a predicate is negated.
pub open spec fn maybe_not(negated: bool) -> Seq<TokV> {
    if negated {
        seq![TokV::Word("not"@)]
    } else {
        Seq::empty()
    }
}

/// An expression written down, without parentheses round the whole.
pub open spec fn bare(e: ExprV) -> Seq<TokV>
    decreases e, 0int,
{
    match e {
        ExprV::Int(n) => seq![TokV::Int(n)],
        ExprV::Str(t) => seq![TokV::Str(t)],
        ExprV::Column(w) => seq![TokV::Word(w)],
        ExprV::Unary { op: UnOp::Not, e } => seq![TokV::Word("not"@)] + shown(*e, 2),
        ExprV::Unary { op: UnOp::Neg, e } => seq![TokV::Sym(Sym::Minus)] + shown(*e, 8),
        ExprV::Binary { op, l, r } => shown(
            *l,
            if op_rank(op) == 3 {
                4
            } else {
                op_rank(op)
            },
        ) + seq![op_tok(op)] + shown(*r, op_rank(op) + 1),
        ExprV::IsNull { e, negated } => shown(*e, 4) + seq![TokV::Word("is"@)] + maybe_not(negated)
            + seq![TokV::Word("null"@)],
        ExprV::Like { e, pattern, negated, insensitive, .. } => shown(*e, 4) + maybe_not(negated)
            + seq![
            if insensitive {
                TokV::Word("ilike"@)
            } else {
                TokV::Word("like"@)
            },
        ] + shown(*pattern, 4),
        ExprV::Between { e, lo, hi, negated } => shown(*e, 4) + maybe_not(negated) + seq![
            TokV::Word("between"@),
        ] + shown(*lo, 4) + seq![TokV::Word("and"@)] + shown(*hi, 4),
        _ => Seq::empty(),
    }
}

/// An expression written down where only what binds at least so tightly may stand:
/// anything else goes into parentheses.
pub open spec fn shown(e: ExprV, level: int) -> Seq<TokV>
    decreases e, 1int,
{
    if rank(e) >= level {
        bare(e)
    } else {
        seq![TokV::Sym(Sym::LParen)] + bare(e) + seq![TokV::Sym(Sym::RParen)]
    }
}

// ---- words ----------------------------------------------------------------------------------------

proof fn lemma_apart(a: Seq<char>, b: Seq<char>, i: int)
    requires
        a.len() != b.len() || (0 <= i < a.len() && lower_char(a[i]) != lower_char(b[i])),
    ensures
        !same_name(a, b),
{
    if same_name(a, b) {
        assert(lower_text(a).len() == lower_text(b).len());
        assert(lower_text(a)[i] == lower_text(b)[i]);
    }
}

/// Whether a word is one of those that continue an operand.
pub open spec fn predicate_word(t: TokV) -> bool {
    word_is(t, "is"@) || word_is(t, "not"@) || word_is(t, "like"@) || word_is(t, "ilike"@)
        || word_is(t, "in"@) || word_is(t, "between"@) || word_is(t, "escape"@)
}

proof fn lemma_short_words()
    ensures
        !word_is(TokV::Word("or"@), "and"@),
        !predicate_word(TokV::Word("or"@)),
        !predicate_word(TokV::Word("and"@)),
{
    reveal_strlit("or");
    reveal_strlit("and");
    reveal_strlit("is");
    reveal_strlit("not");
    reveal_strlit("like");
    reveal_strlit("ilike");
    reveal_strlit("in");
    reveal_strlit("between");
    reveal_strlit("escape");
    lemma_apart("or"@, "and"@, 0);
    lemma_apart("or"@, "is"@, 0);
    lemma_apart("or"@, "not"@, 0);
    lemma_apart("or"@, "like"@, 0);
    lemma_apart("or"@, "ilike"@, 0);
    lemma_apart("or"@, "in"@, 0);
    lemma_apart("or"@, "between"@, 0);
    lemma_apart("or"@, "escape"@, 0);
    lemma_apart("and"@, "is"@, 0);
    lemma_apart("and"@, "not"@, 0);
    lemma_apart("and"@, "like"@, 0);
    lemma_apart("and"@, "ilike"@, 0);
    lemma_apart("and"@, "in"@, 0);
    lemma_apart("and"@, "between"@, 0);
    lemma_apart("and"@, "escape"@, 0);
}

proof fn lemma_long_words()
    ensures
        !same_name("not"@, "is"@),
        !same_name("not"@, "select"@),
        !same_name("not"@, "with"@),
        !same_name("null"@, "not"@),
        !same_name("like"@, "is"@),
        !same_name("like"@, "not"@),
        !same_name("like"@, "ilike"@),
        !same_name("ilike"@, "is"@),
        !same_name("ilike"@, "not"@),
        !same_name("ilike"@, "like"@),
        !same_name("between"@, "is"@),
        !same_name("between"@, "not"@),
        !same_name("between"@, "like"@),
        !same_name("between"@, "ilike"@),
        !same_name("between"@, "in"@),
{
    reveal_strlit("is");
    reveal_strlit("not");
    reveal_strlit("null");
    reveal_strlit("like");
    reveal_strlit("ilike");
    reveal_strlit("in");
    reveal_strlit("between");
    reveal_strlit("select");
    reveal_strlit("with");
    lemma_apart("not"@, "is"@, 0);
    lemma_apart("not"@, "select"@, 0);
    lemma_apart("not"@, "with"@, 0);
    lemma_apart("null"@, "not"@, 0);
    lemma_apart("like"@, "is"@, 0);
    lemma_apart("like"@, "not"@, 0);
    lemma_apart("like"@, "ilike"@, 0);
    lemma_apart("ilike"@, "is"@, 0);
    lemma_apart("ilike"@, "not"@, 0);
    lemma_apart("ilike"@, "like"@, 0);
    lemma_apart("between"@, "is"@, 0);
    lemma_apart("between"@, "not"@, 0);
    lemma_apart("between"@, "like"@, 0);
    lemma_apart("between"@, "ilike"@, 0);
    lemma_apart("between"@, "in"@, 0);
}

// ---- reading --------------------------------------------------------------------------------------

/// What is read where only what binds at least so tightly may stand.
pub open spec fn read_at(level: int, x: SrcV, s: PS) -> Parsed<ExprV> {
    if level == 0 {
        p_expr(x, s)
    } else if level == 1 {
        p_and(x, s)
    } else if level == 2 {
        p_not(x, s)
    } else if level == 3 {
        p_relation(x, s)
    } else if level == 4 {
        p_distance(x, s)
    } else if level == 5 {
        p_concat(x, s)
    } else if level == 6 {
        p_sum(x, s)
    } else if level == 7 {
        p_product(x, s)
    } else if level == 8 {
        p_unary(x, s)
    } else {
        p_cast(x, s)
    }
}

/// What is read behind a first operand.
spec fn rest_at(level: int, x: SrcV, s: PS, e: ExprV) -> Parsed<ExprV> {
    if level == 0 {
        or_rest(x, s, e)
    } else if level == 1 {
        and_rest(x, s, e)
    } else if level == 4 {
        distance_rest(x, s, e)
    } else if level == 5 {
        concat_rest(x, s, e)
    } else if level == 6 {
        sum_rest(x, s, e)
    } else if level == 7 {
        product_rest(x, s, e)
    } else if level == 9 {
        cast_rest(x, s, e)
    } else {
        Ok((e, s))
    }
}

/// Whether a token behind an operand goes on with something of a level.
pub open spec fn goes_on(t: TokV, level: int) -> bool {
    if level == 0 {
        word_is(t, "or"@)
    } else if level == 1 {
        word_is(t, "and"@)
    } else if level == 3 {
        predicate_word(t) || relation_op(t) is Some
    } else if level == 4 {
        distance_op(t) is Some
    } else if level == 5 {
        joins_text(t)
    } else if level == 6 {
        sum_op(t) is Some
    } else if level == 7 {
        product_op(t) is Some
    } else if level == 9 {
        t == TokV::Sym(Sym::DColon)
    } else if level == 10 {
        t == TokV::Sym(Sym::LParen) || t == TokV::Sym(Sym::Dot)
    } else {
        false
    }
}

/// Whether a token ends everything that binds more tightly than a level.
pub open spec fn ends_above(t: TokV, level: int) -> bool {
    forall|m: int| level < m <= 10 ==> !#[trigger] goes_on(t, m)
}

/// Whether tokens stand at a place.
pub open spec fn stand(x: SrcV, s: PS, ts: Seq<TokV>) -> bool {
    forall|k: int| 0 <= k < ts.len() ==> tok_at(x, (s.pos + k) as nat) == #[trigger] ts[k]
}

pub open spec fn moved(s: PS, n: nat) -> PS {
    PS { pos: s.pos + n, ..s }
}

proof fn lemma_stand(x: SrcV, s: PS, a: Seq<TokV>, b: Seq<TokV>)
    requires
        stand(x, s, a + b),
    ensures
        stand(x, s, a),
        stand(x, moved(s, a.len()), b),
        moved(moved(s, a.len()), b.len()) == moved(s, (a + b).len()),
{
    assert forall|k: int| 0 <= k < a.len() implies tok_at(x, (s.pos + k) as nat)
        == #[trigger] a[k] by {
        assert((a + b)[k] == a[k]);
    }
    let t = moved(s, a.len());
    assert forall|k: int| 0 <= k < b.len() implies tok_at(x, (t.pos + k) as nat)
        == #[trigger] b[k] by {
        assert((a + b)[a.len() + k] == b[k]);
    }
}

proof fn lemma_one(x: SrcV, s: PS, t: TokV)
    requires
        stand(x, s, seq![t]),
        t != TokV::Sym(Sym::Eof),
    ensures
        tok(x, s) == t,
        bumped(x, s) == moved(s, 1),
{
    assert(seq![t][0] == t);
}

/// Whether a token may start an operand; a sign may not where `tight`.
spec fn starts(t: TokV, tight: bool) -> bool {
    match t {
        TokV::Int(_) => true,
        TokV::Str(_) => true,
        TokV::Sym(y) => y == Sym::LParen || (y == Sym::Minus && !tight),
        TokV::Word(w) => free_name(w),
        _ => false,
    }
}

proof fn lemma_first(e: ExprV, level: int)
    requires
        operators_only(e),
        0 <= level <= 9,
    ensures
        shown(e, level).len() > 0,
        level >= 3 ==> starts(shown(e, level)[0], level >= 9),
        level < 3 ==> starts(shown(e, level)[0], false) || shown(e, level)[0] == TokV::Word(
            "not"@,
        ),
    decreases e, 1int,
{
    lemma_first_bare(e);
}

proof fn lemma_first_bare(e: ExprV)
    requires
        operators_only(e),
    ensures
        bare(e).len() > 0,
        rank(e) >= 3 ==> starts(bare(e)[0], rank(e) >= 9),
        rank(e) < 3 ==> starts(bare(e)[0], false) || bare(e)[0] == TokV::Word("not"@),
        0 <= rank(e) <= 9,
    decreases e, 0int,
{
    match e {
        ExprV::Binary { op, l, r } => {
            let n = if op_rank(op) == 3 {
                4
            } else {
                op_rank(op)
            };
            lemma_first(*l, n);
            assert(bare(e)[0] == shown(*l, n)[0]);
        },
        ExprV::Unary { op, e: c } => {
            assert(bare(e)[0] == (if op == UnOp::Not {
                TokV::Word("not"@)
            } else {
                TokV::Sym(Sym::Minus)
            }));
        },
        ExprV::IsNull { e: c, .. } => {
            lemma_first(*c, 4);
            assert(bare(e)[0] == shown(*c, 4)[0]);
        },
        ExprV::Like { e: c, .. } => {
            lemma_first(*c, 4);
            assert(bare(e)[0] == shown(*c, 4)[0]);
        },
        ExprV::Between { e: c, .. } => {
            lemma_first(*c, 4);
            assert(bare(e)[0] == shown(*c, 4)[0]);
        },
        _ => {},
    }
}

/// One level up, an operand that ends here is the first of what may follow.
proof fn lemma_up(level: int, x: SrcV, s: PS, e: ExprV, n: nat)
    requires
        0 <= level < 9,
        read_at(level + 1, x, s) == Ok::<(ExprV, PS), StopV>((e, moved(s, n))),
        level == 2 ==> !word_is(tok(x, s), "not"@),
        level == 8 ==> tok(x, s) != TokV::Sym(Sym::Minus) && tok(x, s) != TokV::Sym(Sym::Plus),
        level == 3 ==> !goes_on(tok(x, moved(s, n)), 3),
    ensures
        read_at(level, x, s) == rest_at(level, x, moved(s, n), e),
{
    let t = moved(s, n);
    assert(onto(s, t) == t);
    if level == 0 {
        assert(p_expr(x, s) == or_rest(x, t, e));
    } else if level == 1 {
        assert(p_and(x, s) == and_rest(x, t, e));
    } else if level == 2 {
        assert(p_not(x, s) == p_relation(x, s));
    } else if level == 3 {
        assert(p_relation(x, s) == relation_tail(x, t, e));
        assert(!negates(x, t));
        assert(relation_tail(x, t, e) == compare_tail(x, t, e, false));
        assert(compare_tail(x, t, e, false) == Ok::<(ExprV, PS), StopV>((e, t)));
    } else if level == 4 {
        assert(p_distance(x, s) == distance_rest(x, t, e));
    } else if level == 5 {
        assert(p_concat(x, s) == concat_rest(x, t, e));
    } else if level == 6 {
        assert(p_sum(x, s) == sum_rest(x, t, e));
    } else if level == 7 {
        assert(p_product(x, s) == product_rest(x, t, e));
    } else {
        assert(p_unary(x, s) == p_cast(x, s));
    }
}

/// Where nothing goes on, the operand is all there is.
proof fn lemma_ends(level: int, x: SrcV, s: PS, e: ExprV)
    requires
        0 <= level <= 9,
        !goes_on(tok(x, s), level),
    ensures
        rest_at(level, x, s, e) == Ok::<(ExprV, PS), StopV>((e, s)),
{
    if level == 0 {
        assert(or_rest(x, s, e) == Ok::<(ExprV, PS), StopV>((e, s)));
    } else if level == 1 {
        assert(and_rest(x, s, e) == Ok::<(ExprV, PS), StopV>((e, s)));
    } else if level == 4 {
        assert(distance_rest(x, s, e) == Ok::<(ExprV, PS), StopV>((e, s)));
    } else if level == 5 {
        assert(concat_rest(x, s, e) == Ok::<(ExprV, PS), StopV>((e, s)));
    } else if level == 6 {
        assert(sum_rest(x, s, e) == Ok::<(ExprV, PS), StopV>((e, s)));
    } else if level == 7 {
        assert(product_rest(x, s, e) == Ok::<(ExprV, PS), StopV>((e, s)));
    } else if level == 9 {
        assert(cast_rest(x, s, e) == Ok::<(ExprV, PS), StopV>((e, s)));
    }
}

/// An operator of the level takes its right operand, and reading goes on behind it.
proof fn lemma_goes_on(x: SrcV, s: PS, op: BinOp, l: ExprV, r: ExprV, n: nat)
    requires
        op_rank(op) != 3,
        tok(x, s) == op_tok(op),
        read_at(op_rank(op) + 1, x, moved(s, 1)) == Ok::<(ExprV, PS), StopV>(
            (r, moved(moved(s, 1), n)),
        ),
    ensures
        rest_at(op_rank(op), x, s, l) == rest_at(
            op_rank(op),
            x,
            moved(moved(s, 1), n),
            binary(op, l, r),
        ),
{
    let level = op_rank(op);
    let s1 = moved(s, 1);
    let t = moved(s1, n);
    assert(bumped(x, s) == s1);
    assert(onto(s1, t) == t);
    if level == 0 {
        assert(or_rest(x, s, l) == or_rest(x, t, binary(op, l, r)));
    } else if level == 1 {
        assert(and_rest(x, s, l) == and_rest(x, t, binary(op, l, r)));
    } else if level == 4 {
        assert(distance_op(tok(x, s)) == Some(op));
        assert(distance_rest(x, s, l) == distance_rest(x, t, binary(op, l, r)));
    } else if level == 5 {
        assert(concat_op(tok(x, s), l, r) == Some(binary(op, l, r)));
        assert(concat_rest(x, s, l) == concat_rest(x, t, binary(op, l, r)));
    } else if level == 6 {
        assert(sum_op(tok(x, s)) == Some(op));
        assert(sum_rest(x, s, l) == sum_rest(x, t, binary(op, l, r)));
    } else {
        assert(product_op(tok(x, s)) == Some(op));
        assert(product_rest(x, s, l) == product_rest(x, t, binary(op, l, r)));
    }
}

proof fn lemma_op_ends(op: BinOp)
    ensures
        ends_above(op_tok(op), op_rank(op)),
        op_tok(op) != TokV::Sym(Sym::Eof),
        op_rank(op) == 3 ==> !goes_on(op_tok(op), 4),
{
    lemma_short_words();
    assert forall|m: int| op_rank(op) < m <= 10 implies !#[trigger] goes_on(op_tok(op), m) by {}
}

// ---- reading back ---------------------------------------------------------------------------------

/// What is read of an expression that was written down: it, and what follows on its level.
proof fn lemma_read(e: ExprV, level: int, x: SrcV, s: PS)
    requires
        operators_only(e),
        0 <= level <= 9,
        stand(x, s, shown(e, level)),
        ends_above(
            tok(x, moved(s, shown(e, level).len())),
            if level == 3 {
                2
            } else {
                level
            },
        ),
    ensures
        read_at(level, x, s) == rest_at(level, x, moved(s, shown(e, level).len()), e),
    decreases e, (if rank(e) < level {
            1int
        } else {
            0int
        }), 10 - level, 1int,
{
    let ts = shown(e, level);
    let end = moved(s, ts.len());
    lemma_first(e, level);
    assert(tok(x, s) == ts[0]) by {
        assert(tok_at(x, (s.pos + 0) as nat) == ts[0]);
    }
    lemma_first_bare(e);
    if level < 9 && rank(e) != level {
        assert(shown(e, level + 1) == ts);
        assert(ends_above(
            tok(x, end),
            if level + 1 == 3 {
                2
            } else {
                level + 1
            },
        ));
        lemma_first(e, level + 1);
        lemma_read(e, level + 1, x, s);
        assert(!goes_on(tok(x, end), level + 1)) by {
            assert(level + 1 <= 9);
        }
        lemma_ends(level + 1, x, end, e);
        lemma_up(level, x, s, e, ts.len());
    } else if rank(e) < level {
        lemma_in_parens(e, x, s);
    } else {
        lemma_read_bare(e, x, s);
    }
}

proof fn lemma_in_parens(e: ExprV, x: SrcV, s: PS)
    requires
        operators_only(e),
        rank(e) < 9,
        stand(x, s, shown(e, 9)),
    ensures
        p_cast(x, s) == cast_rest(x, moved(s, shown(e, 9).len()), e),
    decreases e, 1int, 1int, 0int,
{
    let open = seq![TokV::Sym(Sym::LParen)];
    let close = seq![TokV::Sym(Sym::RParen)];
    let ts = bare(e);
    lemma_stand(x, s, open + ts, close);
    lemma_stand(x, s, open, ts);
    lemma_one(x, s, TokV::Sym(Sym::LParen));
    let s1 = moved(s, 1);
    let s2 = moved(s1, ts.len());
    lemma_one(x, s2, TokV::Sym(Sym::RParen));
    lemma_first_bare(e);
    assert(shown(e, 0) == ts);
    lemma_first(e, 0);
    lemma_long_words();
    assert(tok(x, s1) == ts[0]) by {
        assert(tok_at(x, (s1.pos + 0) as nat) == ts[0]);
    }
    assert(!crate::grammar::starts_query(x, s1));
    lemma_read(e, 0, x, s1);
    lemma_ends(0, x, s2, e);
    let s3 = moved(s2, 1);
    assert(p_primary(x, s) == Ok::<(ExprV, PS), StopV>((e, s3)));
    assert(s3 == moved(s, shown(e, 9).len()));
    assert(onto(s, s3) == s3);
}

/// The same of an expression at its own level.
proof fn lemma_read_bare(e: ExprV, x: SrcV, s: PS)
    requires
        operators_only(e),
        stand(x, s, bare(e)),
        ends_above(
            tok(x, moved(s, bare(e).len())),
            if rank(e) == 3 {
                2
            } else {
                rank(e)
            },
        ),
    ensures
        read_at(rank(e), x, s) == rest_at(rank(e), x, moved(s, bare(e).len()), e),
    decreases e, 0int, 10 - rank(e), 0int,
{
    let end = moved(s, bare(e).len());
    match e {
        ExprV::Binary { op, l, r } => if op_rank(op) == 3 {
            lemma_read_compared(e, x, s);
        } else {
            let level = op_rank(op);
            let (a, b) = (shown(*l, level), shown(*r, level + 1));
            let o = seq![op_tok(op)];
            lemma_op_ends(op);
            lemma_stand(x, s, a + o, b);
            lemma_stand(x, s, a, o);
            let m = moved(s, a.len());
            lemma_one(x, m, op_tok(op));
            let m1 = moved(m, 1);
            assert(m1 == moved(s, (a + o).len()));
            lemma_read(*l, level, x, s);
            assert(end == moved(m1, b.len()));
            assert(ends_above(
                tok(x, end),
                if level + 1 == 3 {
                    2
                } else {
                    level + 1
                },
            ));
            lemma_read(*r, level + 1, x, m1);
            lemma_ends(level + 1, x, end, *r);
            lemma_goes_on(x, m, op, *l, *r, b.len());
        },
        ExprV::Unary { op: UnOp::Not, e: c } => {
            let o = seq![TokV::Word("not"@)];
            lemma_stand(x, s, o, shown(*c, 2));
            lemma_one(x, s, TokV::Word("not"@));
            lemma_read(*c, 2, x, moved(s, 1));
            assert(p_not(x, s) == Ok::<(ExprV, PS), StopV>((e, end)));
        },
        ExprV::Unary { op: UnOp::Neg, e: c } => {
            let o = seq![TokV::Sym(Sym::Minus)];
            lemma_stand(x, s, o, shown(*c, 8));
            lemma_one(x, s, TokV::Sym(Sym::Minus));
            lemma_read(*c, 8, x, moved(s, 1));
            assert(p_unary(x, s) == Ok::<(ExprV, PS), StopV>((e, end)));
        },
        ExprV::IsNull { .. } => {
            lemma_read_null(e, x, s);
        },
        ExprV::Like { .. } => {
            lemma_read_like(e, x, s);
        },
        ExprV::Between { .. } => {
            lemma_read_between(e, x, s);
        },
        _ => {
            lemma_one(x, s, bare(e)[0]);
            assert(seq![bare(e)[0]] =~= bare(e));
            assert(!goes_on(tok(x, end), 10));
            assert(p_primary(x, s) == Ok::<(ExprV, PS), StopV>((e, end)));
            assert(onto(s, end) == end);
        },
    }
}

/// An operand of a predicate, read up to where it ends.
proof fn lemma_operand(e: ExprV, x: SrcV, s: PS)
    requires
        operators_only(e),
        stand(x, s, shown(e, 4)),
        ends_above(tok(x, moved(s, shown(e, 4).len())), 3),
    ensures
        p_distance(x, s) == Ok::<(ExprV, PS), StopV>((e, moved(s, shown(e, 4).len()))),
    decreases e, 2int, 0int, 0int,
{
    let end = moved(s, shown(e, 4).len());
    assert(!goes_on(tok(x, end), 4));
    assert(ends_above(tok(x, end), 4));
    lemma_read(e, 4, x, s);
    lemma_ends(4, x, end, e);
}

proof fn lemma_word_ends(w: Seq<char>)
    ensures
        ends_above(TokV::Word(w), 3),
{
    assert forall|m: int| 3 < m <= 10 implies !#[trigger] goes_on(TokV::Word(w), m) by {}
}

proof fn lemma_read_compared(e: ExprV, x: SrcV, s: PS)
    requires
        operators_only(e),
        e is Binary,
        rank(e) == 3,
        stand(x, s, bare(e)),
        ends_above(tok(x, moved(s, bare(e).len())), 2),
    ensures
        p_relation(x, s) == Ok::<(ExprV, PS), StopV>((e, moved(s, bare(e).len()))),
    decreases e, 0int, 0int, 0int,
{
    if let ExprV::Binary { op, l, r } = e {
        let end = moved(s, bare(e).len());
        let (a, b) = (shown(*l, 4), shown(*r, 4));
        let o = seq![op_tok(op)];
        lemma_op_ends(op);
        lemma_stand(x, s, a + o, b);
        lemma_stand(x, s, a, o);
        let m = moved(s, a.len());
        lemma_one(x, m, op_tok(op));
        let m1 = moved(m, 1);
        assert(m1 == moved(s, (a + o).len()));
        assert(end == moved(m1, b.len()));
        lemma_operand(*l, x, s);
        assert(ends_above(tok(x, end), 3));
        lemma_operand(*r, x, m1);
        assert(onto(s, m) == m);
        assert(p_relation(x, s) == relation_tail(x, m, *l));
        assert(relation_tail(x, m, *l) == compare_tail(x, m, *l, false));
        assert(relation_op(tok(x, m)) == Some(op));
        assert(compare_tail(x, m, *l, false) == Ok::<(ExprV, PS), StopV>((e, end)));
    }
}

proof fn lemma_read_null(e: ExprV, x: SrcV, s: PS)
    requires
        operators_only(e),
        e is IsNull,
        stand(x, s, bare(e)),
    ensures
        p_relation(x, s) == Ok::<(ExprV, PS), StopV>((e, moved(s, bare(e).len()))),
    decreases e, 0int, 0int, 0int,
{
    if let ExprV::IsNull { e: c, negated } = e {
        let end = moved(s, bare(e).len());
        let a = shown(*c, 4);
        let (i, n, z) = (seq![TokV::Word("is"@)], maybe_not(negated), seq![TokV::Word("null"@)]);
        lemma_stand(x, s, a + i + n, z);
        lemma_stand(x, s, a + i, n);
        lemma_stand(x, s, a, i);
        let m = moved(s, a.len());
        let m1 = moved(m, 1);
        let m2 = moved(m1, n.len());
        assert(m1 == moved(s, (a + i).len()));
        assert(m2 == moved(s, (a + i + n).len()));
        lemma_one(x, m, TokV::Word("is"@));
        lemma_one(x, m2, TokV::Word("null"@));
        lemma_word_ends("is"@);
        lemma_operand(*c, x, s);
        lemma_long_words();
        if negated {
            lemma_one(x, m1, TokV::Word("not"@));
        }
        assert(onto(s, m) == m);
        assert(p_relation(x, s) == relation_tail(x, m, *c));
        assert(relation_tail(x, m, *c) == null_tail(x, m1, *c));
        assert(null_tail(x, m1, *c) == Ok::<(ExprV, PS), StopV>((e, end)));
    }
}

/// A predicate behind an operand, past the `NOT` that may stand before it.
proof fn lemma_negated(c: ExprV, negated: bool, w: Seq<char>, x: SrcV, s: PS)
    requires
        operators_only(c),
        stand(x, s, shown(c, 4) + maybe_not(negated) + seq![TokV::Word(w)]),
        w == "like"@ || w == "ilike"@ || w == "between"@,
    ensures
        ({
            let m = moved(s, shown(c, 4).len() + maybe_not(negated).len());
            &&& p_relation(x, s) == compare_tail(x, m, c, negated)
            &&& tok(x, m) == TokV::Word(w)
            &&& bumped(x, m) == moved(m, 1)
        }),
    decreases c, 3int, 0int, 0int,
{
    let (a, n, z) = (shown(c, 4), maybe_not(negated), seq![TokV::Word(w)]);
    lemma_stand(x, s, a + n, z);
    lemma_stand(x, s, a, n);
    let m = moved(s, a.len());
    let m1 = moved(m, n.len());
    assert(m1 == moved(s, (a + n).len()));
    lemma_one(x, m1, TokV::Word(w));
    lemma_long_words();
    if negated {
        lemma_one(x, m, TokV::Word("not"@));
        lemma_word_ends("not"@);
        assert(tok_at(x, m.pos + 1) == TokV::Word(w));
    } else {
        assert(m1 == m);
        lemma_word_ends(w);
    }
    lemma_operand(c, x, s);
    assert(onto(s, m) == m);
    assert(p_relation(x, s) == relation_tail(x, m, c));
    assert(negates(x, m) == negated);
    assert(relation_tail(x, m, c) == compare_tail(x, m1, c, negated));
}

proof fn lemma_read_like(e: ExprV, x: SrcV, s: PS)
    requires
        operators_only(e),
        e is Like,
        stand(x, s, bare(e)),
        ends_above(tok(x, moved(s, bare(e).len())), 2),
    ensures
        p_relation(x, s) == Ok::<(ExprV, PS), StopV>((e, moved(s, bare(e).len()))),
    decreases e, 0int, 0int, 0int,
{
    if let ExprV::Like { e: c, pattern, escape, negated, insensitive } = e {
        let end = moved(s, bare(e).len());
        let w = if insensitive {
            "ilike"@
        } else {
            "like"@
        };
        let head = shown(*c, 4) + maybe_not(negated) + seq![TokV::Word(w)];
        let b = shown(*pattern, 4);
        assert(bare(e) =~= head + b);
        lemma_stand(x, s, head, b);
        lemma_negated(*c, negated, w, x, s);
        let m = moved(s, shown(*c, 4).len() + maybe_not(negated).len());
        let m1 = moved(m, 1);
        assert(m1 == moved(s, head.len()));
        assert(end == moved(m1, b.len()));
        assert(ends_above(tok(x, end), 3));
        assert(!goes_on(tok(x, end), 3));
        lemma_operand(*pattern, x, m1);
        lemma_long_words();
        assert(onto(m1, end) == end);
        assert(compare_tail(x, m, *c, negated) == like_tail(x, m, *c, negated));
        assert(escape is None);
        assert(like_tail(x, m, *c, negated) == Ok::<(ExprV, PS), StopV>((e, end)));
    }
}

proof fn lemma_read_between(e: ExprV, x: SrcV, s: PS)
    requires
        operators_only(e),
        e is Between,
        stand(x, s, bare(e)),
        ends_above(tok(x, moved(s, bare(e).len())), 2),
    ensures
        p_relation(x, s) == Ok::<(ExprV, PS), StopV>((e, moved(s, bare(e).len()))),
    decreases e, 0int, 0int, 0int,
{
    if let ExprV::Between { e: c, lo, hi, negated } = e {
        let end = moved(s, bare(e).len());
        let head = shown(*c, 4) + maybe_not(negated) + seq![TokV::Word("between"@)];
        let (a, o, b) = (shown(*lo, 4), seq![TokV::Word("and"@)], shown(*hi, 4));
        lemma_stand(x, s, head + a + o, b);
        lemma_stand(x, s, head + a, o);
        lemma_stand(x, s, head, a);
        lemma_negated(*c, negated, "between"@, x, s);
        let m = moved(s, shown(*c, 4).len() + maybe_not(negated).len());
        let m1 = moved(m, 1);
        let m2 = moved(m1, a.len());
        let m3 = moved(m2, 1);
        assert(m1 == moved(s, head.len()));
        assert(m2 == moved(s, (head + a).len()));
        assert(m3 == moved(s, (head + a + o).len()));
        assert(end == moved(m3, b.len()));
        lemma_one(x, m2, TokV::Word("and"@));
        lemma_word_ends("and"@);
        assert(ends_above(tok(x, end), 3));
        lemma_operand(*lo, x, m1);
        lemma_operand(*hi, x, m3);
        lemma_long_words();
        assert(onto(m1, m2) == m2);
        assert(compare_tail(x, m, *c, negated) == between_tail(x, m1, *c, negated));
        assert(between_tail(x, m1, *c, negated) == Ok::<(ExprV, PS), StopV>((e, end)));
    }
}

/// An expression of numbers, texts, names, operators and predicates is read back as it was
/// from what is written for it, with parentheses only where they are needed: `OR` binds
/// less tightly than `AND`, that less than `NOT`, then come comparisons, `IS NULL`, `LIKE`
/// and `BETWEEN`, distances, `||`, sums, products and signs; operators of one rank are
/// taken from the left.
pub proof fn law_expressions_read_back(e: ExprV, x: SrcV, s: PS)
    requires
        operators_only(e),
        stand(x, s, bare(e)),
        ends_above(tok(x, moved(s, bare(e).len())), -1),
    ensures
        p_expr(x, s) == Ok::<(ExprV, PS), StopV>((e, moved(s, bare(e).len()))),
{
    let end = moved(s, bare(e).len());
    lemma_first_bare(e);
    assert(shown(e, 0) == bare(e));
    assert(ends_above(tok(x, end), 0));
    lemma_read(e, 0, x, s);
    assert(!goes_on(tok(x, end), 0));
    lemma_ends(0, x, end, e);
}

} // verus!
