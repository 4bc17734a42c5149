//! The grammar: what a list of tokens says.
//!
//! Each rule takes the state of reading and yields what it read together with the
//! state behind it, or why the text is in error. Reading only ever goes forward;
//! `onto` says so to the rules that read on behind another.
use vstd::prelude::*;
use crate::asks::{float_of, AskV, RealsV, StopV};
use crate::env::sql_fail;
use crate::lex::{lexed, symbol_name, token_name, Sym, TokV};
use crate::sql::{
    cast_word, AggArgV, AggFunc, BinOp, CastTarget, CteV, ExprV, FromV, ItemV, JoinKind, KeyV,
    SelectV, SetOp, SetOpV, UnOp,
};
use crate::text::{lower_text, same_name};

verus! {

/// What is read.
pub struct SrcV {
    pub toks: Seq<TokV>,
    pub reals: RealsV,
    /// The text of the whole statement.
    pub text: Seq<char>,
    /// Whether this is an expression kept with a table.
    pub stored: bool,
}

/// How far reading has come, and which parameters it has met.
pub struct PS {
    pub pos: nat,
    /// The number that the next `?` gets.
    pub next: nat,
    /// The highest number so far.
    pub max: nat,
    pub named: Seq<(Seq<char>, nat)>,
}

/// What a rule yields.
pub type Parsed<T> = Result<(T, PS), StopV>;

pub open spec fn eof() -> TokV {
    TokV::Sym(Sym::Eof)
}

pub open spec fn tok_at(x: SrcV, i: nat) -> TokV {
    if i < x.toks.len() {
        x.toks[i as int]
    } else {
        eof()
    }
}

/// The token to be read next.
pub open spec fn tok(x: SrcV, s: PS) -> TokV {
    tok_at(x, s.pos)
}

pub open spec fn sym(x: SrcV, s: PS, y: Sym) -> bool {
    tok(x, s) == TokV::Sym(y)
}

/// How many tokens are left.
pub open spec fn room(x: SrcV, s: PS) -> nat {
    if s.pos < x.toks.len() {
        (x.toks.len() - s.pos) as nat
    } else {
        0
    }
}

/// Behind the next token; at the end there is nothing behind.
pub open spec fn bumped(x: SrcV, s: PS) -> PS {
    if sym(x, s, Sym::Eof) {
        s
    } else {
        PS { pos: s.pos + 1, ..s }
    }
}

/// A state that does not lie before `s`: `t`, which never does.
pub open spec fn onto(s: PS, t: PS) -> PS {
    PS {
        pos: if t.pos >= s.pos {
            t.pos
        } else {
            s.pos
        },
        ..t
    }
}

pub open spec fn word_is(t: TokV, k: Seq<char>) -> bool {
    match t {
        TokV::Word(w) => same_name(w, k),
        _ => false,
    }
}

pub open spec fn kw(x: SrcV, s: PS, k: Seq<char>) -> bool {
    word_is(tok(x, s), k)
}

pub open spec fn kw_at(x: SrcV, i: nat, k: Seq<char>) -> bool {
    word_is(tok_at(x, i), k)
}

/// Behind a keyword, where it stands there.
pub open spec fn eat(x: SrcV, s: PS, k: Seq<char>) -> PS {
    if kw(x, s, k) {
        bumped(x, s)
    } else {
        s
    }
}

/// Behind one of two keywords.
pub open spec fn eat2(x: SrcV, s: PS, k: Seq<char>, l: Seq<char>) -> PS {
    if kw(x, s, k) {
        bumped(x, s)
    } else {
        eat(x, s, l)
    }
}

/// An error that ends with the name of a token.
pub open spec fn found(x: SrcV, m: Seq<char>, t: TokV) -> StopV {
    match token_name(x.reals, t) {
        Ok(n) => sql_fail(m + n),
        Err(e) => e,
    }
}

pub open spec fn need_sym(x: SrcV, s: PS, y: Sym) -> Result<PS, StopV> {
    if sym(x, s, y) {
        Ok(bumped(x, s))
    } else {
        Err(found(x, "expected "@ + symbol_name(y) + ", found "@, tok(x, s)))
    }
}

pub open spec fn need_kw(x: SrcV, s: PS, k: Seq<char>) -> Result<PS, StopV> {
    if kw(x, s, k) {
        Ok(bumped(x, s))
    } else {
        Err(found(x, "expected keyword "@ + k + ", found "@, tok(x, s)))
    }
}

pub open spec fn p_ident(x: SrcV, s: PS) -> Parsed<Seq<char>> {
    match tok(x, s) {
        TokV::Word(w) => Ok((w, bumped(x, s))),
        t => Err(found(x, "expected identifier, found "@, t)),
    }
}

/// The names from here on, separated by commas, behind `acc`.
pub open spec fn names_from(x: SrcV, s: PS, acc: Seq<Seq<char>>) -> Parsed<Seq<Seq<char>>>
    decreases room(x, s),
{
    match p_ident(x, s) {
        Err(e) => Err(e),
        Ok((n, t)) => {
            let s1 = onto(s, t);
            if sym(x, s1, Sym::Comma) {
                names_from(x, bumped(x, s1), acc.push(n))
            } else {
                Ok((acc.push(n), s1))
            }
        },
    }
}

/// A list of names in parentheses.
pub open spec fn p_names(x: SrcV, s: PS) -> Parsed<Seq<Seq<char>>> {
    match need_sym(x, s, Sym::LParen) {
        Err(e) => Err(e),
        Ok(s1) => match names_from(x, s1, Seq::empty()) {
            Err(e) => Err(e),
            Ok((names, s2)) => match need_sym(x, s2, Sym::RParen) {
                Err(e) => Err(e),
                Ok(s3) => Ok((names, s3)),
            },
        },
    }
}

// ---- words ---------------------------------------------------------------------------------------

pub open spec fn aggregate_named(w: Seq<char>) -> Option<AggFunc> {
    if same_name(w, "count"@) {
        Some(AggFunc::Count)
    } else if same_name(w, "sum"@) {
        Some(AggFunc::Sum)
    } else if same_name(w, "min"@) {
        Some(AggFunc::Min)
    } else if same_name(w, "max"@) {
        Some(AggFunc::Max)
    } else if same_name(w, "avg"@) {
        Some(AggFunc::Avg)
    } else if same_name(w, "json_agg"@) || same_name(w, "jsonb_agg"@) {
        Some(AggFunc::JsonAgg)
    } else if same_name(w, "group_concat"@) || same_name(w, "string_agg"@) {
        Some(AggFunc::GroupConcat)
    } else {
        None
    }
}

/// Words that are no output alias.
pub open spec fn clause_word(w: Seq<char>) -> bool {
    same_name(w, "from"@) || same_name(w, "where"@) || same_name(w, "order"@) || same_name(
        w,
        "limit"@,
    ) || same_name(w, "offset"@) || same_name(w, "group"@) || same_name(w, "having"@) || same_name(
        w,
        "as"@,
    ) || same_name(w, "and"@) || same_name(w, "or"@) || same_name(w, "is"@) || same_name(w, "like"@)
        || same_name(w, "ilike"@) || same_name(w, "asc"@) || same_name(w, "desc"@) || same_name(
        w,
        "nulls"@,
    ) || same_name(w, "returning"@) || same_name(w, "on"@) || same_name(w, "between"@) || same_name(
        w,
        "union"@,
    ) || same_name(w, "intersect"@) || same_name(w, "except"@)
}

/// Words that are no alias of a source.
pub open spec fn boundary_word(w: Seq<char>) -> bool {
    same_name(w, "join"@) || same_name(w, "inner"@) || same_name(w, "left"@) || same_name(
        w,
        "right"@,
    ) || same_name(w, "full"@) || same_name(w, "cross"@) || same_name(w, "on"@) || same_name(
        w,
        "using"@,
    ) || same_name(w, "where"@) || same_name(w, "group"@) || same_name(w, "order"@) || same_name(
        w,
        "limit"@,
    ) || same_name(w, "offset"@) || same_name(w, "having"@) || same_name(w, "union"@) || same_name(
        w,
        "intersect"@,
    ) || same_name(w, "except"@) || same_name(w, "as"@)
}

/// Functions whose calls are told apart by where they stand.
pub open spec fn draws(w: Seq<char>) -> bool {
    same_name(w, "random"@) || same_name(w, "gen_random_uuid"@) || same_name(
        w,
        "uuid_generate_v4"@,
    )
}

/// The mark of a call at a token: its place, on another scale for kept expressions.
pub open spec fn call_mark(x: SrcV, pos: nat) -> i64 {
    let p = pos as i64;
    if x.stored && p >= 0 {
        (i64::MIN + p) as i64
    } else {
        p
    }
}

// ---- parameters ----------------------------------------------------------------------------------

pub open spec fn named_at(named: Seq<(Seq<char>, nat)>, w: Seq<char>, i: int) -> Option<nat>
    decreases named.len() - i,
{
    if i < 0 || i >= named.len() {
        None
    } else if named[i].0 == w {
        Some(named[i].1)
    } else {
        named_at(named, w, i + 1)
    }
}

pub open spec fn bigger(a: nat, b: nat) -> nat {
    if a > b {
        a
    } else {
        b
    }
}

/// The number of a parameter token, and the state with it noted: `$n` has its own,
/// a repeated name keeps its first, anything else gets the next.
pub open spec fn numbered(s: PS, t: TokV) -> (nat, PS) {
    match t {
        TokV::NumParam(n) => (n as nat, PS { max: bigger(s.max, n as nat), ..s }),
        TokV::NamedParam(w) => match named_at(s.named, w, 0) {
            Some(i) => (i, PS { max: bigger(s.max, i), ..s }),
            None => (
                s.next,
                PS {
                    next: s.next + 1,
                    max: bigger(s.max, s.next),
                    named: s.named.push((w, s.next)),
                    ..s
                },
            ),
        },
        _ => (s.next, PS { next: s.next + 1, max: bigger(s.max, s.next), ..s }),
    }
}

pub open spec fn is_param(t: TokV) -> bool {
    t == TokV::Sym(Sym::Param) || t is NumParam || t is NamedParam
}

/// A parameter token read as an expression.
pub open spec fn p_param(x: SrcV, s: PS) -> (ExprV, PS) {
    let (n, t) = numbered(bumped(x, s), tok(x, s));
    (ExprV::Param(n as usize), t)
}

// ---- types in casts ------------------------------------------------------------------------------

/// Behind everything up to a closing parenthesis or the end.
pub open spec fn to_close(x: SrcV, s: PS) -> PS
    decreases room(x, s),
{
    if sym(x, s, Sym::RParen) || sym(x, s, Sym::Eof) {
        s
    } else {
        to_close(x, bumped(x, s))
    }
}

/// Behind array marks `[]`.
pub open spec fn past_marks(x: SrcV, s: PS) -> Result<PS, StopV>
    decreases room(x, s),
{
    if sym(x, s, Sym::LBracket) {
        match need_sym(x, bumped(x, s), Sym::RBracket) {
            Err(e) => Err(e),
            Ok(t) => past_marks(x, onto(bumped(x, s), t)),
        }
    } else {
        Ok(s)
    }
}

/// Behind the further words of a type's name.
pub open spec fn past_type_words(x: SrcV, s: PS, w: Seq<char>) -> PS {
    if w == "double"@ {
        eat(x, s, "precision"@)
    } else if w == "character"@ || w == "bit"@ {
        eat(x, s, "varying"@)
    } else if (w == "timestamp"@ || w == "time"@) && (kw(x, s, "with"@) || kw(x, s, "without"@)) {
        eat(x, eat(x, bumped(x, s), "time"@), "zone"@)
    } else {
        s
    }
}

/// A type in a cast; only its leading word matters.
pub open spec fn p_cast_type(x: SrcV, s: PS) -> Parsed<CastTarget> {
    let named = match p_ident(x, s) {
        Err(e) => Err(e),
        Ok((w, s1)) => if sym(x, s1, Sym::Dot) {
            p_ident(x, bumped(x, s1))
        } else {
            Ok((w, s1))
        },
    };
    match named {
        Err(e) => Err(e),
        Ok((w, s1)) => {
            let s2 = past_type_words(x, s1, lower_text(w));
            let sized = if sym(x, s2, Sym::LParen) {
                need_sym(x, to_close(x, bumped(x, s2)), Sym::RParen)
            } else {
                Ok(s2)
            };
            match sized {
                Err(e) => Err(e),
                Ok(s3) => match past_marks(x, s3) {
                    Err(e) => Err(e),
                    Ok(s4) => Ok((cast_word(lower_text(w)), s4)),
                },
            }
        },
    }
}

// ---- vectors -------------------------------------------------------------------------------------

/// A float with its sign turned.
pub open spec fn turned(b: u32) -> u32 {
    if b >= 0x8000_0000 {
        (b - 0x8000_0000) as u32
    } else {
        (b + 0x8000_0000) as u32
    }
}

pub open spec fn p_component(x: SrcV, s: PS) -> Parsed<u32> {
    let neg = sym(x, s, Sym::Minus);
    let s1 = if neg {
        bumped(x, s)
    } else {
        s
    };
    let value = match tok(x, s1) {
        TokV::Int(n) => float_of(x.reals, AskV::Int32(n)),
        TokV::Real(b) => float_of(x.reals, AskV::Narrow(b)),
        t => Err(found(x, "vector literal expects numbers, found "@, t)),
    };
    match value {
        Err(e) => Err(e),
        Ok(v) => Ok(
            (
                if neg {
                    turned(v)
                } else {
                    v
                },
                bumped(x, s1),
            ),
        ),
    }
}

pub open spec fn components_from(x: SrcV, s: PS, acc: Seq<u32>) -> Parsed<Seq<u32>>
    decreases room(x, s),
{
    match p_component(x, s) {
        Err(e) => Err(e),
        Ok((v, t)) => {
            let s1 = onto(s, t);
            if sym(x, s1, Sym::Comma) {
                components_from(x, bumped(x, s1), acc.push(v))
            } else {
                Ok((acc.push(v), s1))
            }
        },
    }
}

/// `[a, b, c]`.
pub open spec fn p_vector(x: SrcV, s: PS) -> Parsed<ExprV> {
    let s1 = bumped(x, s);
    let comps = if sym(x, s1, Sym::RBracket) {
        Ok((Seq::empty(), s1))
    } else {
        components_from(x, s1, Seq::empty())
    };
    match comps {
        Err(e) => Err(e),
        Ok((v, s2)) => match need_sym(x, s2, Sym::RBracket) {
            Err(e) => Err(e),
            Ok(s3) => Ok((ExprV::Vector(v), s3)),
        },
    }
}

// ---- expressions ---------------------------------------------------------------------------------

pub open spec fn binary(op: BinOp, l: ExprV, r: ExprV) -> ExprV {
    ExprV::Binary { op, l: Box::new(l), r: Box::new(r) }
}

/// An expression.
pub open spec fn p_expr(x: SrcV, s: PS) -> Parsed<ExprV>
    decreases room(x, s), 100int,
{
    match p_and(x, s) {
        Err(e) => Err(e),
        Ok((l, t)) => or_rest(x, onto(s, t), l),
    }
}

pub open spec fn or_rest(x: SrcV, s: PS, l: ExprV) -> Parsed<ExprV>
    decreases room(x, s), 99int,
{
    if kw(x, s, "or"@) {
        let s1 = bumped(x, s);
        match p_and(x, s1) {
            Err(e) => Err(e),
            Ok((r, t)) => or_rest(x, onto(s1, t), binary(BinOp::Or, l, r)),
        }
    } else {
        Ok((l, s))
    }
}

pub open spec fn p_and(x: SrcV, s: PS) -> Parsed<ExprV>
    decreases room(x, s), 98int,
{
    match p_not(x, s) {
        Err(e) => Err(e),
        Ok((l, t)) => and_rest(x, onto(s, t), l),
    }
}

pub open spec fn and_rest(x: SrcV, s: PS, l: ExprV) -> Parsed<ExprV>
    decreases room(x, s), 97int,
{
    if kw(x, s, "and"@) {
        let s1 = bumped(x, s);
        match p_not(x, s1) {
            Err(e) => Err(e),
            Ok((r, t)) => and_rest(x, onto(s1, t), binary(BinOp::And, l, r)),
        }
    } else {
        Ok((l, s))
    }
}

pub open spec fn p_not(x: SrcV, s: PS) -> Parsed<ExprV>
    decreases room(x, s), 96int,
{
    if kw(x, s, "not"@) {
        match p_not(x, bumped(x, s)) {
            Err(e) => Err(e),
            Ok((e, t)) => Ok((ExprV::Unary { op: UnOp::Not, e: Box::new(e) }, t)),
        }
    } else {
        p_relation(x, s)
    }
}

/// A comparison, or one operand alone.
pub open spec fn p_relation(x: SrcV, s: PS) -> Parsed<ExprV>
    decreases room(x, s), 95int,
{
    match p_distance(x, s) {
        Err(e) => Err(e),
        Ok((l, t)) => relation_tail(x, onto(s, t), l),
    }
}

/// Whether a `NOT` belongs to the predicate behind it.
pub open spec fn negates(x: SrcV, s: PS) -> bool {
    kw(x, s, "not"@) && (kw_at(x, s.pos + 1, "like"@) || kw_at(x, s.pos + 1, "ilike"@) || kw_at(
        x,
        s.pos + 1,
        "in"@,
    ) || kw_at(x, s.pos + 1, "between"@))
}

pub open spec fn relation_op(t: TokV) -> Option<BinOp> {
    match t {
        TokV::Sym(Sym::Eq) => Some(BinOp::Eq),
        TokV::Sym(Sym::Ne) => Some(BinOp::Ne),
        TokV::Sym(Sym::Lt) => Some(BinOp::Lt),
        TokV::Sym(Sym::Le) => Some(BinOp::Le),
        TokV::Sym(Sym::Gt) => Some(BinOp::Gt),
        TokV::Sym(Sym::Ge) => Some(BinOp::Ge),
        _ => None,
    }
}

/// What follows the `IS` of a null test.
pub open spec fn null_tail(x: SrcV, s1: PS, l: ExprV) -> Parsed<ExprV> {
    match need_kw(x, eat(x, s1, "not"@), "null"@) {
        Err(e) => Err(e),
        Ok(s2) => Ok((ExprV::IsNull { e: Box::new(l), negated: kw(x, s1, "not"@) }, s2)),
    }
}

pub open spec fn relation_tail(x: SrcV, s: PS, l: ExprV) -> Parsed<ExprV>
    decreases room(x, s), 94int,
{
    if kw(x, s, "is"@) {
        null_tail(x, bumped(x, s), l)
    } else {
        let negated = negates(x, s);
        let s1 = if negated {
            bumped(x, s)
        } else {
            s
        };
        compare_tail(x, s1, l, negated)
    }
}

/// What follows an operand and perhaps a `NOT`.
pub open spec fn compare_tail(x: SrcV, s1: PS, l: ExprV, negated: bool) -> Parsed<ExprV>
    decreases room(x, s1), 93int,
{
    if kw(x, s1, "like"@) || kw(x, s1, "ilike"@) {
        like_tail(x, s1, l, negated)
    } else if kw(x, s1, "in"@) {
        in_tail(x, bumped(x, s1), l, negated)
    } else if kw(x, s1, "between"@) {
        between_tail(x, bumped(x, s1), l, negated)
    } else {
        match relation_op(tok(x, s1)) {
            None => Ok((l, s1)),
            Some(op) => match p_distance(x, bumped(x, s1)) {
                Err(e) => Err(e),
                Ok((r, t)) => Ok((binary(op, l, r), t)),
            },
        }
    }
}

/// `LIKE pattern [ESCAPE c]`, or `ILIKE`.
pub open spec fn like_tail(x: SrcV, s: PS, l: ExprV, negated: bool) -> Parsed<ExprV>
    decreases room(x, s), 92int,
{
    if !(kw(x, s, "like"@) || kw(x, s, "ilike"@)) {
        Ok((l, s))
    } else {
        let insensitive = kw(x, s, "ilike"@);
        let s1 = bumped(x, s);
        match p_distance(x, s1) {
            Err(e) => Err(e),
            Ok((pattern, t)) => {
                let s2 = onto(s1, t);
                if kw(x, s2, "escape"@) {
                    match p_distance(x, bumped(x, s2)) {
                        Err(e) => Err(e),
                        Ok((c, s3)) => Ok(
                            (
                                ExprV::Like {
                                    e: Box::new(l),
                                    pattern: Box::new(pattern),
                                    escape: Some(Box::new(c)),
                                    negated,
                                    insensitive,
                                },
                                s3,
                            ),
                        ),
                    }
                } else {
                    Ok(
                        (
                            ExprV::Like {
                                e: Box::new(l),
                                pattern: Box::new(pattern),
                                escape: None,
                                negated,
                                insensitive,
                            },
                            s2,
                        ),
                    )
                }
            },
        }
    }
}

/// Whether a query starts here.
pub open spec fn starts_query(x: SrcV, s: PS) -> bool {
    kw(x, s, "select"@) || kw(x, s, "with"@)
}

/// `(expr, ...)` or `(SELECT ...)` behind `IN`.
pub open spec fn in_tail(x: SrcV, s: PS, l: ExprV, negated: bool) -> Parsed<ExprV>
    decreases room(x, s), 102int,
{
    match need_sym(x, s, Sym::LParen) {
        Err(e) => Err(e),
        Ok(t) => {
            let s1 = onto(s, t);
            if starts_query(x, s1) {
                match p_select(x, bumped_by(x, s, s1)) {
                    Err(e) => Err(e),
                    Ok((q, s2)) => match need_sym(x, s2, Sym::RParen) {
                        Err(e) => Err(e),
                        Ok(s3) => Ok(
                            (
                                ExprV::InSubquery { e: Box::new(l), query: Box::new(q), negated },
                                s3,
                            ),
                        ),
                    },
                }
            } else {
                let list = if sym(x, s1, Sym::RParen) {
                    Ok((Seq::empty(), s1))
                } else {
                    exprs_from(x, s1, Seq::empty())
                };
                match list {
                    Err(e) => Err(e),
                    Ok((v, s2)) => match need_sym(x, s2, Sym::RParen) {
                        Err(e) => Err(e),
                        Ok(s3) => Ok((ExprV::InList { e: Box::new(l), list: v, negated }, s3)),
                    },
                }
            }
        },
    }
}

/// `t`, which lies behind the token at `s`.
pub open spec fn bumped_by(x: SrcV, s: PS, t: PS) -> PS {
    onto(bumped(x, s), t)
}

/// `lo AND hi` behind `BETWEEN`.
pub open spec fn between_tail(x: SrcV, s: PS, l: ExprV, negated: bool) -> Parsed<ExprV>
    decreases room(x, s), 102int,
{
    match p_distance(x, s) {
        Err(e) => Err(e),
        Ok((lo, t)) => {
            let s1 = onto(s, t);
            if !kw(x, s1, "and"@) {
                Err(found(x, "expected keyword and, found "@, tok(x, s1)))
            } else {
                match p_distance(x, bumped(x, s1)) {
                    Err(e) => Err(e),
                    Ok((hi, s2)) => Ok(
                        (
                            ExprV::Between {
                                e: Box::new(l),
                                lo: Box::new(lo),
                                hi: Box::new(hi),
                                negated,
                            },
                            s2,
                        ),
                    ),
                }
            }
        },
    }
}

pub open spec fn distance_op(t: TokV) -> Option<BinOp> {
    match t {
        TokV::Sym(Sym::VecL2) => Some(BinOp::VecL2),
        TokV::Sym(Sym::VecCosine) => Some(BinOp::VecCosine),
        TokV::Sym(Sym::VecIp) => Some(BinOp::VecIp),
        _ => None,
    }
}

pub open spec fn p_distance(x: SrcV, s: PS) -> Parsed<ExprV>
    decreases room(x, s), 92int,
{
    match p_concat(x, s) {
        Err(e) => Err(e),
        Ok((l, t)) => distance_rest(x, onto(s, t), l),
    }
}

pub open spec fn distance_rest(x: SrcV, s: PS, l: ExprV) -> Parsed<ExprV>
    decreases room(x, s), 91int,
{
    match distance_op(tok(x, s)) {
        None => Ok((l, s)),
        Some(op) => {
            let s1 = bumped(x, s);
            match p_concat(x, s1) {
                Err(e) => Err(e),
                Ok((r, t)) => distance_rest(x, onto(s1, t), binary(op, l, r)),
            }
        },
    }
}

/// What `||`, `->` and `->>` make of two operands.
pub open spec fn concat_op(t: TokV, l: ExprV, r: ExprV) -> Option<ExprV> {
    match t {
        TokV::Sym(Sym::Concat) => Some(binary(BinOp::Concat, l, r)),
        TokV::Sym(Sym::Arrow) => Some(ExprV::Func { name: "json_get"@, args: seq![l, r] }),
        TokV::Sym(Sym::ArrowText) => Some(
            ExprV::Func { name: "json_get_text"@, args: seq![l, r] },
        ),
        _ => None,
    }
}

pub open spec fn joins_text(t: TokV) -> bool {
    t == TokV::Sym(Sym::Concat) || t == TokV::Sym(Sym::Arrow) || t == TokV::Sym(Sym::ArrowText)
}

pub open spec fn p_concat(x: SrcV, s: PS) -> Parsed<ExprV>
    decreases room(x, s), 90int,
{
    match p_sum(x, s) {
        Err(e) => Err(e),
        Ok((l, t)) => concat_rest(x, onto(s, t), l),
    }
}

pub open spec fn concat_rest(x: SrcV, s: PS, l: ExprV) -> Parsed<ExprV>
    decreases room(x, s), 89int,
{
    if joins_text(tok(x, s)) {
        let s1 = bumped(x, s);
        match p_sum(x, s1) {
            Err(e) => Err(e),
            Ok((r, t)) => match concat_op(tok(x, s), l, r) {
                Some(y) => concat_rest(x, onto(s1, t), y),
                None => Ok((l, s)),
            },
        }
    } else {
        Ok((l, s))
    }
}

pub open spec fn sum_op(t: TokV) -> Option<BinOp> {
    match t {
        TokV::Sym(Sym::Plus) => Some(BinOp::Add),
        TokV::Sym(Sym::Minus) => Some(BinOp::Sub),
        _ => None,
    }
}

pub open spec fn p_sum(x: SrcV, s: PS) -> Parsed<ExprV>
    decreases room(x, s), 88int,
{
    match p_product(x, s) {
        Err(e) => Err(e),
        Ok((l, t)) => sum_rest(x, onto(s, t), l),
    }
}

pub open spec fn sum_rest(x: SrcV, s: PS, l: ExprV) -> Parsed<ExprV>
    decreases room(x, s), 87int,
{
    match sum_op(tok(x, s)) {
        None => Ok((l, s)),
        Some(op) => {
            let s1 = bumped(x, s);
            match p_product(x, s1) {
                Err(e) => Err(e),
                Ok((r, t)) => sum_rest(x, onto(s1, t), binary(op, l, r)),
            }
        },
    }
}

pub open spec fn product_op(t: TokV) -> Option<BinOp> {
    match t {
        TokV::Sym(Sym::Star) => Some(BinOp::Mul),
        TokV::Sym(Sym::Slash) => Some(BinOp::Div),
        TokV::Sym(Sym::Percent) => Some(BinOp::Mod),
        _ => None,
    }
}

pub open spec fn p_product(x: SrcV, s: PS) -> Parsed<ExprV>
    decreases room(x, s), 86int,
{
    match p_unary(x, s) {
        Err(e) => Err(e),
        Ok((l, t)) => product_rest(x, onto(s, t), l),
    }
}

pub open spec fn product_rest(x: SrcV, s: PS, l: ExprV) -> Parsed<ExprV>
    decreases room(x, s), 85int,
{
    match product_op(tok(x, s)) {
        None => Ok((l, s)),
        Some(op) => {
            let s1 = bumped(x, s);
            match p_unary(x, s1) {
                Err(e) => Err(e),
                Ok((r, t)) => product_rest(x, onto(s1, t), binary(op, l, r)),
            }
        },
    }
}

pub open spec fn p_unary(x: SrcV, s: PS) -> Parsed<ExprV>
    decreases room(x, s), 84int,
{
    if sym(x, s, Sym::Minus) {
        match p_unary(x, bumped(x, s)) {
            Err(e) => Err(e),
            Ok((e, t)) => Ok((ExprV::Unary { op: UnOp::Neg, e: Box::new(e) }, t)),
        }
    } else if sym(x, s, Sym::Plus) {
        p_unary(x, bumped(x, s))
    } else {
        p_cast(x, s)
    }
}

pub open spec fn p_cast(x: SrcV, s: PS) -> Parsed<ExprV>
    decreases room(x, s), 83int,
{
    match p_primary(x, s) {
        Err(e) => Err(e),
        Ok((e, t)) => cast_rest(x, onto(s, t), e),
    }
}

/// `::type` marks behind an operand.
pub open spec fn cast_rest(x: SrcV, s: PS, e: ExprV) -> Parsed<ExprV>
    decreases room(x, s), 82int,
{
    if sym(x, s, Sym::DColon) {
        let s1 = bumped(x, s);
        match p_cast_type(x, s1) {
            Err(z) => Err(z),
            Ok((target, t)) => cast_rest(
                x,
                onto(s1, t),
                ExprV::Cast { e: Box::new(e), target },
            ),
        }
    } else {
        Ok((e, s))
    }
}

/// The expressions from here on, separated by commas, behind `acc`.
pub open spec fn exprs_from(x: SrcV, s: PS, acc: Seq<ExprV>) -> Parsed<Seq<ExprV>>
    decreases room(x, s), 101int,
{
    match p_expr(x, s) {
        Err(e) => Err(e),
        Ok((e, t)) => {
            let s1 = onto(s, t);
            if sym(x, s1, Sym::Comma) {
                exprs_from(x, bumped(x, s1), acc.push(e))
            } else {
                Ok((acc.push(e), s1))
            }
        },
    }
}

/// A literal, a parameter, a name, a call, or something in brackets.
pub open spec fn p_primary(x: SrcV, s: PS) -> Parsed<ExprV>
    decreases room(x, s), 81int,
{
    let s1 = bumped(x, s);
    match tok(x, s) {
        TokV::Int(n) => Ok((ExprV::Int(n), s1)),
        TokV::Real(b) => Ok((ExprV::Real(b), s1)),
        TokV::Str(t) => Ok((ExprV::Str(t), s1)),
        TokV::NumParam(_) | TokV::NamedParam(_) | TokV::Sym(Sym::Param) => Ok(p_param(x, s)),
        TokV::Sym(Sym::LParen) => if starts_query(x, s1) {
            match p_select(x, s1) {
                Err(e) => Err(e),
                Ok((q, s2)) => match need_sym(x, s2, Sym::RParen) {
                    Err(e) => Err(e),
                    Ok(s3) => Ok((ExprV::ScalarSubquery(Box::new(q)), s3)),
                },
            }
        } else {
            match p_expr(x, s1) {
                Err(e) => Err(e),
                Ok((e, s2)) => match need_sym(x, s2, Sym::RParen) {
                    Err(z) => Err(z),
                    Ok(s3) => Ok((e, s3)),
                },
            }
        },
        TokV::Sym(Sym::LBracket) => p_vector(x, s),
        TokV::Word(w) => if same_name(w, "null"@) {
            Ok((ExprV::Null, s1))
        } else if same_name(w, "true"@) {
            Ok((ExprV::Int(1), s1))
        } else if same_name(w, "false"@) {
            Ok((ExprV::Int(0), s1))
        } else if same_name(w, "default"@) {
            Ok((ExprV::Default, s1))
        } else if same_name(w, "case"@) {
            case_body(x, s1)
        } else if same_name(w, "cast"@) && sym(x, s1, Sym::LParen) {
            cast_body(x, bumped(x, s1))
        } else if same_name(w, "extract"@) && sym(x, s1, Sym::LParen) {
            extract_body(x, bumped(x, s1))
        } else if same_name(w, "exists"@) && sym(x, s1, Sym::LParen) {
            exists_body(x, bumped(x, s1))
        } else if sym(x, s1, Sym::LParen) {
            match aggregate_named(w) {
                Some(f) => aggregate_body(x, bumped(x, s1), f),
                None => call_body(x, bumped(x, s1), w, call_mark(x, s.pos)),
            }
        } else if sym(x, s1, Sym::Dot) {
            match p_ident(x, bumped(x, s1)) {
                Err(e) => Err(e),
                Ok((c, s2)) => if same_name(w, "excluded"@) {
                    Ok((ExprV::Excluded(c), s2))
                } else if sym(x, s2, Sym::LParen) {
                    call_body(x, bumped(x, s2), w + "."@ + c, call_mark(x, s.pos))
                } else {
                    Ok((ExprV::Qualified(w, c), s2))
                },
            }
        } else {
            Ok((ExprV::Column(w), s1))
        },
        t => Err(found(x, "unexpected token in expression: "@, t)),
    }
}

/// The `WHEN ... THEN ...` branches from here on, behind `acc`.
pub open spec fn whens_from(x: SrcV, s: PS, acc: Seq<(ExprV, ExprV)>) -> Parsed<Seq<(ExprV, ExprV)>>
    decreases room(x, s), 101int,
{
    if kw(x, s, "when"@) {
        let s1 = bumped(x, s);
        match p_expr(x, s1) {
            Err(e) => Err(e),
            Ok((c, t)) => {
                let s2 = onto(s1, t);
                if !kw(x, s2, "then"@) {
                    Err(found(x, "expected keyword then, found "@, tok(x, s2)))
                } else {
                    let s3 = bumped(x, s2);
                    match p_expr(x, s3) {
                        Err(e) => Err(e),
                        Ok((r, u)) => whens_from(x, onto(s3, u), acc.push((c, r))),
                    }
                }
            },
        }
    } else {
        Ok((acc, s))
    }
}

/// Behind `CASE`.
pub open spec fn case_body(x: SrcV, s: PS) -> Parsed<ExprV>
    decreases room(x, s), 105int,
{
    let operand = if kw(x, s, "when"@) {
        Ok((None, s))
    } else {
        match p_expr(x, s) {
            Err(e) => Err(e),
            Ok((o, t)) => Ok((Some(Box::new(o)), onto(s, t))),
        }
    };
    match operand {
        Err(e) => Err(e),
        Ok((o, s1)) => match whens_from(x, s1, Seq::empty()) {
            Err(e) => Err(e),
            Ok((whens, t)) => {
                let s2 = onto(s1, t);
                if whens.len() == 0 {
                    Err(sql_fail("CASE requires at least one WHEN"@))
                } else {
                    let els = if kw(x, s2, "else"@) {
                        match p_expr(x, bumped(x, s2)) {
                            Err(e) => Err(e),
                            Ok((y, u)) => Ok((Some(Box::new(y)), u)),
                        }
                    } else {
                        Ok((None, s2))
                    };
                    match els {
                        Err(e) => Err(e),
                        Ok((y, s3)) => match need_kw(x, s3, "end"@) {
                            Err(e) => Err(e),
                            Ok(s4) => Ok((ExprV::Case { operand: o, whens, els: y }, s4)),
                        },
                    }
                }
            },
        },
    }
}

/// `expr AS type )` behind `CAST (`.
pub open spec fn cast_body(x: SrcV, s: PS) -> Parsed<ExprV>
    decreases room(x, s), 105int,
{
    match p_expr(x, s) {
        Err(e) => Err(e),
        Ok((e, s1)) => match need_kw(x, s1, "as"@) {
            Err(z) => Err(z),
            Ok(s2) => match p_cast_type(x, s2) {
                Err(z) => Err(z),
                Ok((target, s3)) => match need_sym(x, s3, Sym::RParen) {
                    Err(z) => Err(z),
                    Ok(s4) => Ok((ExprV::Cast { e: Box::new(e), target }, s4)),
                },
            },
        },
    }
}

/// `field FROM expr )` behind `EXTRACT (`.
pub open spec fn extract_body(x: SrcV, s: PS) -> Parsed<ExprV>
    decreases room(x, s), 105int,
{
    match p_ident(x, s) {
        Err(e) => Err(e),
        Ok((field, s1)) => match need_kw(x, s1, "from"@) {
            Err(e) => Err(e),
            Ok(s2) => match p_expr(x, onto(s, s2)) {
                Err(e) => Err(e),
                Ok((e, s3)) => match need_sym(x, s3, Sym::RParen) {
                    Err(z) => Err(z),
                    Ok(s4) => Ok(
                        (
                            ExprV::Func {
                                name: "extract"@,
                                args: seq![ExprV::Str(lower_text(field)), e],
                            },
                            s4,
                        ),
                    ),
                },
            },
        },
    }
}

/// `SELECT ... )` behind `EXISTS (`.
pub open spec fn exists_body(x: SrcV, s: PS) -> Parsed<ExprV>
    decreases room(x, s), 235int,
{
    match p_select(x, s) {
        Err(e) => Err(e),
        Ok((q, s1)) => match need_sym(x, s1, Sym::RParen) {
            Err(e) => Err(e),
            Ok(s2) => Ok((ExprV::Exists { query: Box::new(q), negated: false }, s2)),
        },
    }
}

/// The arguments of a call and its closing parenthesis.
pub open spec fn call_body(x: SrcV, s: PS, w: Seq<char>, mark: i64) -> Parsed<ExprV>
    decreases room(x, s), 105int,
{
    let args = if sym(x, s, Sym::RParen) {
        Ok((Seq::empty(), s))
    } else if sym(x, s, Sym::Star) {
        Ok((Seq::empty(), bumped(x, s)))
    } else {
        exprs_from(x, s, Seq::empty())
    };
    match args {
        Err(e) => Err(e),
        Ok((v, s1)) => match need_sym(x, s1, Sym::RParen) {
            Err(e) => Err(e),
            Ok(s2) => Ok(
                (
                    ExprV::Func {
                        name: w,
                        args: if draws(w) {
                            seq![ExprV::Int(mark)] + v
                        } else {
                            v
                        },
                    },
                    s2,
                ),
            ),
        },
    }
}

/// `* | [DISTINCT] expr [, separator] )` behind an aggregate's name.
pub open spec fn aggregate_body(x: SrcV, s: PS, func: AggFunc) -> Parsed<ExprV>
    decreases room(x, s), 105int,
{
    let distinct = kw(x, s, "distinct"@);
    let s1 = eat(x, eat(x, s, "distinct"@), "all"@);
    let arg = if sym(x, s1, Sym::Star) {
        Ok((AggArgV::Star, bumped(x, s1)))
    } else {
        match p_expr(x, onto(s, s1)) {
            Err(e) => Err(e),
            Ok((e, t)) => Ok((AggArgV::Expr(Box::new(e)), t)),
        }
    };
    match arg {
        Err(e) => Err(e),
        Ok((a, t)) => {
            let s2 = onto(s, t);
            let sep = if sym(x, s2, Sym::Comma) {
                match p_expr(x, bumped(x, s2)) {
                    Err(e) => Err(e),
                    Ok((e, u)) => Ok((Some(Box::new(e)), u)),
                }
            } else {
                Ok((None, s2))
            };
            match sep {
                Err(e) => Err(e),
                Ok((sp, s3)) => match need_sym(x, s3, Sym::RParen) {
                    Err(e) => Err(e),
                    Ok(s4) => Ok(
                        (ExprV::Aggregate { func, arg: a, distinct, sep: sp }, s4),
                    ),
                },
            }
        },
    }
}

// ---- queries -------------------------------------------------------------------------------------

/// An output alias.
pub open spec fn p_alias(x: SrcV, s: PS) -> Parsed<Option<Seq<char>>> {
    if kw(x, s, "as"@) {
        match p_ident(x, bumped(x, s)) {
            Err(e) => Err(e),
            Ok((a, t)) => Ok((Some(a), t)),
        }
    } else {
        match tok(x, s) {
            TokV::Word(w) => if clause_word(w) {
                Ok((None, s))
            } else {
                Ok((Some(w), bumped(x, s)))
            },
            _ => Ok((None, s)),
        }
    }
}

/// A source's alias.
pub open spec fn p_source_alias(x: SrcV, s: PS) -> Parsed<Option<Seq<char>>> {
    if kw(x, s, "as"@) {
        match p_ident(x, bumped(x, s)) {
            Err(e) => Err(e),
            Ok((a, t)) => Ok((Some(a), t)),
        }
    } else {
        match tok(x, s) {
            TokV::Word(w) => if boundary_word(w) {
                Ok((None, s))
            } else {
                Ok((Some(w), bumped(x, s)))
            },
            _ => Ok((None, s)),
        }
    }
}

/// One item of a select list.
pub open spec fn p_item(x: SrcV, s: PS) -> Parsed<ItemV>
    decreases room(x, s), 101int,
{
    if sym(x, s, Sym::Star) {
        Ok((ItemV::Star { qualifier: None }, bumped(x, s)))
    } else if tok(x, s) is Word && tok_at(x, s.pos + 1) == TokV::Sym(Sym::Dot) && tok_at(
        x,
        s.pos + 2,
    ) == TokV::Sym(Sym::Star) {
        Ok(
            (
                ItemV::Star { qualifier: Some(tok(x, s)->Word_0) },
                bumped(x, bumped(x, bumped(x, s))),
            ),
        )
    } else {
        match p_expr(x, s) {
            Err(e) => Err(e),
            Ok((expr, s1)) => match p_alias(x, s1) {
                Err(e) => Err(e),
                Ok((alias, s2)) => Ok((ItemV::Expr { expr, alias }, s2)),
            },
        }
    }
}

pub open spec fn items_from(x: SrcV, s: PS, acc: Seq<ItemV>) -> Parsed<Seq<ItemV>>
    decreases room(x, s), 102int,
{
    match p_item(x, s) {
        Err(e) => Err(e),
        Ok((i, t)) => {
            let s1 = onto(s, t);
            if sym(x, s1, Sym::Comma) {
                items_from(x, bumped(x, s1), acc.push(i))
            } else {
                Ok((acc.push(i), s1))
            }
        },
    }
}

/// An optional clause: a keyword and an expression.
pub open spec fn p_clause(x: SrcV, s: PS, k: Seq<char>) -> Parsed<Option<ExprV>>
    decreases room(x, s), 101int,
{
    if kw(x, s, k) {
        match p_expr(x, bumped(x, s)) {
            Err(e) => Err(e),
            Ok((e, t)) => Ok((Some(e), t)),
        }
    } else {
        Ok((None, s))
    }
}

pub open spec fn p_group_by(x: SrcV, s: PS) -> Parsed<Seq<ExprV>>
    decreases room(x, s), 102int,
{
    if kw(x, s, "group"@) {
        let s1 = bumped(x, s);
        match need_kw(x, s1, "by"@) {
            Err(e) => Err(e),
            Ok(s2) => exprs_from(x, onto(s1, s2), Seq::empty()),
        }
    } else {
        Ok((Seq::empty(), s))
    }
}

/// The direction of an order key, and where its `NULL`s go.
pub open spec fn p_direction(x: SrcV, s: PS) -> Parsed<(bool, bool)> {
    let asc = !kw(x, s, "desc"@);
    let s1 = eat2(x, s, "desc"@, "asc"@);
    if kw(x, s1, "nulls"@) {
        let s2 = bumped(x, s1);
        if kw(x, s2, "first"@) {
            Ok(((asc, true), bumped(x, s2)))
        } else {
            match need_kw(x, s2, "last"@) {
                Err(e) => Err(e),
                Ok(s3) => Ok(((asc, false), s3)),
            }
        }
    } else {
        Ok(((asc, asc), s1))
    }
}

pub open spec fn keys_from(x: SrcV, s: PS, acc: Seq<KeyV>) -> Parsed<Seq<KeyV>>
    decreases room(x, s), 102int,
{
    match p_expr(x, s) {
        Err(e) => Err(e),
        Ok((expr, t)) => match p_direction(x, onto(s, t)) {
            Err(e) => Err(e),
            Ok(((asc, nulls_first), u)) => {
                let s1 = onto(s, u);
                let key = KeyV { expr, asc, nulls_first };
                if sym(x, s1, Sym::Comma) {
                    keys_from(x, bumped(x, s1), acc.push(key))
                } else {
                    Ok((acc.push(key), s1))
                }
            },
        },
    }
}

pub open spec fn p_order_by(x: SrcV, s: PS) -> Parsed<Seq<KeyV>>
    decreases room(x, s), 103int,
{
    if kw(x, s, "order"@) {
        let s1 = bumped(x, s);
        match need_kw(x, s1, "by"@) {
            Err(e) => Err(e),
            Ok(s2) => keys_from(x, onto(s1, s2), Seq::empty()),
        }
    } else {
        Ok((Seq::empty(), s))
    }
}

/// A `LIMIT` or `OFFSET` count: an integer, perhaps negated, or a parameter.
pub open spec fn p_count(x: SrcV, s: PS, what: Seq<char>) -> Parsed<ExprV> {
    if is_param(tok(x, s)) {
        Ok(p_param(x, s))
    } else {
        let neg = sym(x, s, Sym::Minus);
        let s1 = if neg {
            bumped(x, s)
        } else {
            s
        };
        match tok(x, s1) {
            TokV::Int(n) => Ok(
                (
                    ExprV::Int(
                        if neg && n != i64::MIN {
                            (-n) as i64
                        } else {
                            n
                        },
                    ),
                    bumped(x, s1),
                ),
            ),
            t => Err(found(x, what + " expects an integer or parameter, found "@, t)),
        }
    }
}

/// `LIMIT` and `OFFSET`, each at most once, in either order.
pub open spec fn p_window(x: SrcV, s: PS, limit: Option<ExprV>, offset: Option<ExprV>) -> Parsed<
    (Option<ExprV>, Option<ExprV>),
>
    decreases room(x, s),
{
    if limit is None && kw(x, s, "limit"@) {
        let s1 = bumped(x, s);
        if kw(x, s1, "all"@) {
            p_window(x, bumped(x, s1), limit, offset)
        } else {
            match p_count(x, s1, "LIMIT"@) {
                Err(e) => Err(e),
                Ok((e, t)) => p_window(x, onto(s1, t), Some(e), offset),
            }
        }
    } else if offset is None && kw(x, s, "offset"@) {
        let s1 = bumped(x, s);
        match p_count(x, s1, "OFFSET"@) {
            Err(e) => Err(e),
            Ok((e, t)) => p_window(
                x,
                eat2(x, onto(s1, t), "row"@, "rows"@),
                limit,
                Some(e),
            ),
        }
    } else {
        Ok(((limit, offset), s))
    }
}

/// `[INNER | LEFT|RIGHT|FULL [OUTER] | CROSS] JOIN`, where one stands here.
pub open spec fn p_join_kind(x: SrcV, s: PS) -> Parsed<Option<JoinKind>> {
    if kw(x, s, "join"@) {
        let s1 = bumped(x, s);
        Ok(
            (
                Some(JoinKind::Inner),
                if kw(x, s1, "inner"@) {
                    eat(x, bumped(x, s1), "join"@)
                } else {
                    s1
                },
            ),
        )
    } else if kw(x, s, "inner"@) && kw_at(x, s.pos + 1, "join"@) {
        Ok((Some(JoinKind::Inner), bumped(x, bumped(x, s))))
    } else if kw(x, s, "cross"@) {
        match need_kw(x, bumped(x, s), "join"@) {
            Err(e) => Err(e),
            Ok(t) => Ok((Some(JoinKind::Cross), t)),
        }
    } else if kw(x, s, "left"@) || kw(x, s, "right"@) || kw(x, s, "full"@) {
        let kind = if kw(x, s, "left"@) {
            JoinKind::Left
        } else if kw(x, s, "right"@) {
            JoinKind::Right
        } else {
            JoinKind::Full
        };
        match need_kw(x, eat(x, bumped(x, s), "outer"@), "join"@) {
            Err(e) => Err(e),
            Ok(t) => Ok((Some(kind), t)),
        }
    } else {
        Ok((None, s))
    }
}

/// `ON predicate` or `USING (columns)`.
pub open spec fn p_join_condition(x: SrcV, s: PS) -> Parsed<
    (Option<Box<ExprV>>, Seq<Seq<char>>),
>
    decreases room(x, s), 101int,
{
    if kw(x, s, "on"@) {
        match p_expr(x, bumped(x, s)) {
            Err(e) => Err(e),
            Ok((e, t)) => Ok(((Some(Box::new(e)), Seq::empty()), t)),
        }
    } else if kw(x, s, "using"@) {
        match p_names(x, bumped(x, s)) {
            Err(e) => Err(e),
            Ok((n, t)) => Ok(((None, n), t)),
        }
    } else {
        Err(sql_fail("JOIN requires an ON or USING clause"@))
    }
}

/// A source, and what is joined to it.
pub open spec fn p_from(x: SrcV, s: PS) -> Parsed<FromV>
    decreases room(x, s), 212int,
{
    match p_source(x, s) {
        Err(e) => Err(e),
        Ok((l, t)) => joins_from(x, onto(s, t), l),
    }
}

/// The joins from here on, to the right of `l`.
pub open spec fn joins_from(x: SrcV, s: PS, l: FromV) -> Parsed<FromV>
    decreases room(x, s), 211int,
{
    match p_join_kind(x, s) {
        Err(e) => Err(e),
        Ok((Some(kind), t)) => if !(tok(x, s) is Word) {
            Ok((l, s))
        } else {
            let s1 = bumped_by(x, s, t);
            match p_source(x, s1) {
                Err(e) => Err(e),
                Ok((r, u)) => {
                    let s2 = onto(s1, u);
                    let condition = if kind == JoinKind::Cross {
                        Ok(((None, Seq::empty()), s2))
                    } else {
                        p_join_condition(x, s2)
                    };
                    match condition {
                        Err(e) => Err(e),
                        Ok(((on, using), v)) => joins_from(
                            x,
                            onto(s1, v),
                            FromV::Join {
                                left: Box::new(l),
                                right: Box::new(r),
                                kind,
                                on,
                                using,
                            },
                        ),
                    }
                },
            }
        },
        Ok((None, _)) => if sym(x, s, Sym::Comma) {
            let s1 = bumped(x, s);
            match p_source(x, s1) {
                Err(e) => Err(e),
                Ok((r, u)) => joins_from(
                    x,
                    onto(s1, u),
                    FromV::Join {
                        left: Box::new(l),
                        right: Box::new(r),
                        kind: JoinKind::Cross,
                        on: None,
                        using: Seq::empty(),
                    },
                ),
            }
        } else {
            Ok((l, s))
        },
    }
}

/// A table, a derived table, or a join in parentheses.
pub open spec fn p_source(x: SrcV, s: PS) -> Parsed<FromV>
    decreases room(x, s), 210int,
{
    if sym(x, s, Sym::LParen) {
        let s1 = bumped(x, s);
        if starts_query(x, s1) {
            match p_select(x, s1) {
                Err(e) => Err(e),
                Ok((q, s2)) => match need_sym(x, s2, Sym::RParen) {
                    Err(e) => Err(e),
                    Ok(s3) => match p_source_alias(x, s3) {
                        Err(e) => Err(e),
                        Ok((None, _)) => Err(
                            sql_fail("a derived table (subquery) in FROM requires an alias"@),
                        ),
                        Ok((Some(a), s4)) => Ok(
                            (FromV::Derived { query: Box::new(q), alias: a }, s4),
                        ),
                    },
                },
            }
        } else {
            match p_from(x, s1) {
                Err(e) => Err(e),
                Ok((f, s2)) => match need_sym(x, s2, Sym::RParen) {
                    Err(e) => Err(e),
                    Ok(s3) => Ok((f, s3)),
                },
            }
        }
    } else {
        match p_ident(x, s) {
            Err(e) => Err(e),
            Ok((name, s1)) => match p_source_alias(x, s1) {
                Err(e) => Err(e),
                Ok((alias, s2)) => Ok((FromV::Table { name, alias, at: s.pos as u64 }, s2)),
            },
        }
    }
}

pub open spec fn p_opt_from(x: SrcV, s: PS, k: Seq<char>) -> Parsed<Option<FromV>>
    decreases room(x, s), 213int,
{
    if kw(x, s, k) {
        match p_from(x, bumped(x, s)) {
            Err(e) => Err(e),
            Ok((f, t)) => Ok((Some(f), t)),
        }
    } else {
        Ok((None, s))
    }
}

/// A query up to its `HAVING`.
pub open spec fn p_core(x: SrcV, s: PS) -> Parsed<SelectV>
    decreases room(x, s), 214int,
{
    match need_kw(x, s, "select"@) {
        Err(e) => Err(e),
        Ok(s0) => {
            let s1 = eat(x, s0, "all"@);
            let distinct = kw(x, s1, "distinct"@);
            let s2 = onto(s, eat(x, s1, "distinct"@));
            match items_from(x, s2, Seq::empty()) {
                Err(e) => Err(e),
                Ok((items, t3)) => match p_opt_from(x, onto(s, t3), "from"@) {
                    Err(e) => Err(e),
                    Ok((from, t4)) => match p_clause(x, onto(s, t4), "where"@) {
                        Err(e) => Err(e),
                        Ok((filter, t5)) => match p_group_by(x, onto(s, t5)) {
                            Err(e) => Err(e),
                            Ok((group_by, t6)) => match p_clause(x, onto(s, t6), "having"@) {
                                Err(e) => Err(e),
                                Ok((having, t7)) => Ok(
                                    (
                                        SelectV {
                                            with: Seq::empty(),
                                            distinct,
                                            items,
                                            from,
                                            filter,
                                            group_by,
                                            having,
                                            set_ops: Seq::empty(),
                                            order_by: Seq::empty(),
                                            limit: None,
                                            offset: None,
                                        },
                                        t7,
                                    ),
                                ),
                            },
                        },
                    },
                },
            }
        },
    }
}

/// The common table expressions from here on, behind `acc`.
pub open spec fn ctes_read_from(x: SrcV, s: PS, acc: Seq<CteV>) -> Parsed<Seq<CteV>>
    decreases room(x, s), 221int,
{
    match p_ident(x, s) {
        Err(e) => Err(e),
        Ok((name, s1)) => {
            let listed = if sym(x, s1, Sym::LParen) {
                match p_names(x, s1) {
                    Err(e) => Err(e),
                    Ok((_, t)) => Ok(t),
                }
            } else {
                Ok(s1)
            };
            match listed {
                Err(e) => Err(e),
                Ok(s2) => match need_kw(x, s2, "as"@) {
                    Err(e) => Err(e),
                    Ok(s3) => match need_sym(x, s3, Sym::LParen) {
                        Err(e) => Err(e),
                        Ok(s4) => {
                            let s5 = bumped_by(x, s, s4);
                            match p_select(x, s5) {
                                Err(e) => Err(e),
                                Ok((q, t)) => match need_sym(x, onto(s5, t), Sym::RParen) {
                                    Err(e) => Err(e),
                                    Ok(u) => {
                                        let s6 = onto(s5, u);
                                        let next = acc.push(CteV { name, query: Box::new(q) });
                                        if sym(x, s6, Sym::Comma) {
                                            ctes_read_from(x, bumped(x, s6), next)
                                        } else {
                                            Ok((next, s6))
                                        }
                                    },
                                },
                            }
                        },
                    },
                },
            }
        },
    }
}

pub open spec fn p_with(x: SrcV, s: PS) -> Parsed<Seq<CteV>>
    decreases room(x, s), 222int,
{
    if kw(x, s, "with"@) {
        ctes_read_from(x, bumped_by(x, s, eat(x, bumped(x, s), "recursive"@)), Seq::empty())
    } else {
        Ok((Seq::empty(), s))
    }
}

pub open spec fn set_word(x: SrcV, s: PS) -> Option<SetOp> {
    if kw(x, s, "union"@) {
        Some(SetOp::Union)
    } else if kw(x, s, "intersect"@) {
        Some(SetOp::Intersect)
    } else if kw(x, s, "except"@) {
        Some(SetOp::Except)
    } else {
        None
    }
}

/// The set operations from here on, behind `acc`.
pub open spec fn arms_read_from(x: SrcV, s: PS, acc: Seq<SetOpV>) -> Parsed<Seq<SetOpV>>
    decreases room(x, s), 223int,
{
    match set_word(x, s) {
        None => Ok((acc, s)),
        Some(op) => {
            let s1 = bumped(x, s);
            let all = kw(x, s1, "all"@);
            let s2 = bumped_by(x, s, eat(x, eat(x, s1, "all"@), "distinct"@));
            let part = if sym(x, s2, Sym::LParen) {
                match p_select(x, bumped(x, s2)) {
                    Err(e) => Err(e),
                    Ok((q, t)) => match need_sym(x, t, Sym::RParen) {
                        Err(e) => Err(e),
                        Ok(u) => Ok((q, u)),
                    },
                }
            } else {
                p_core(x, s2)
            };
            match part {
                Err(e) => Err(e),
                Ok((q, t)) => arms_read_from(
                    x,
                    onto(s2, t),
                    acc.push(SetOpV { op, all, query: Box::new(q) }),
                ),
            }
        },
    }
}

/// A whole query.
pub open spec fn p_select(x: SrcV, s: PS) -> Parsed<SelectV>
    decreases room(x, s), 230int,
{
    match p_with(x, s) {
        Err(e) => Err(e),
        Ok((with, t1)) => match p_core(x, onto(s, t1)) {
            Err(e) => Err(e),
            Ok((core, t2)) => match arms_read_from(x, onto(s, t2), Seq::empty()) {
                Err(e) => Err(e),
                Ok((set_ops, t3)) => match p_order_by(x, onto(s, t3)) {
                    Err(e) => Err(e),
                    Ok((order_by, t4)) => match p_window(x, onto(s, t4), None, None) {
                        Err(e) => Err(e),
                        Ok(((limit, offset), t5)) => Ok(
                            (
                                SelectV { with, set_ops, order_by, limit, offset, ..core },
                                t5,
                            ),
                        ),
                    },
                },
            },
        },
    }
}

/// The state in which reading begins.
pub open spec fn start() -> PS {
    PS { pos: 0, next: 1, max: 0, named: Seq::empty() }
}

/// What an expression kept with a table says.
pub open spec fn stored_expr(text: Seq<char>, reals: RealsV) -> Result<ExprV, StopV> {
    match lexed(text, reals) {
        Err(e) => Err(e),
        Ok(toks) => {
            let x = SrcV { toks, reals, text, stored: true };
            match p_expr(x, start()) {
                Err(e) => Err(e),
                Ok((e, s)) => if sym(x, s, Sym::Eof) {
                    Ok(e)
                } else {
                    Err(sql_fail("trailing tokens after expression"@))
                },
            }
        },
    }
}

} // verus!
