//! Operators on values: three-valued logic, arithmetic, casts, pattern matching,
//! grouping keys and ordering.
use vstd::prelude::*;
use crate::asks::{bits_of, number_of, Ask, AskV, Binary, Reals, RealsV, Stop, StopV};
use crate::base64::{base64_encode, base64_text};
use crate::env::{sql_fail, sql_stop, Out};
use crate::funcs::{divide, modulo, quotient, remainder};
use crate::ieee::{
    int_to_real, mag_bits, negate, real_mag, real_negate, real_of_int, real_round_int, round_to_int,
    INF_BITS32, Order, SIGN_BIT32,
};
use crate::sql::{BinOp, CastTarget, UnOp};
use crate::strfn::{debug_string, debug_text};
use crate::text::{
    bool_int, concat2, concat3, concat4, from_chars, i64_of_text, int_chars, int_of_bool, int_text,
    lower_char, lower_of, nat_chars, nat_string, nat_text, owned, parse_i64, to_chars, trim_chars,
    trimmed,
};
use crate::value::{
    class_name, mag32, parse_vector, row_view, text_form, truth, value_eq, value_order,
    value_result, vector_of_text, vector_result, RowV, Value, ValueV,
};

verus! {

// ---- three-valued logic ------------------------------------------------------------------

/// `AND`: false wins over unknown.
pub open spec fn and3(a: Option<bool>, b: Option<bool>) -> ValueV {
    if a == Some(false) || b == Some(false) {
        ValueV::Int(0)
    } else if a == Some(true) && b == Some(true) {
        ValueV::Int(1)
    } else {
        ValueV::Null
    }
}

/// `OR`: true wins over unknown.
pub open spec fn or3(a: Option<bool>, b: Option<bool>) -> ValueV {
    if a == Some(true) || b == Some(true) {
        ValueV::Int(1)
    } else if a == Some(false) && b == Some(false) {
        ValueV::Int(0)
    } else {
        ValueV::Null
    }
}

pub open spec fn not3(a: Option<bool>) -> ValueV {
    match a {
        Some(b) => ValueV::Int(bool_int(!b)),
        None => ValueV::Null,
    }
}

pub open spec fn known3(a: Option<bool>) -> ValueV {
    match a {
        Some(b) => ValueV::Int(bool_int(b)),
        None => ValueV::Null,
    }
}

pub fn three_valued_and(a: Option<bool>, b: Option<bool>) -> (r: Value)
    ensures
        r@ == and3(a, b),
{
    match (a, b) {
        (Some(false), _) | (_, Some(false)) => Value::Int(0),
        (Some(true), Some(true)) => Value::Int(1),
        _ => Value::Null,
    }
}

pub fn three_valued_or(a: Option<bool>, b: Option<bool>) -> (r: Value)
    ensures
        r@ == or3(a, b),
{
    match (a, b) {
        (Some(true), _) | (_, Some(true)) => Value::Int(1),
        (Some(false), Some(false)) => Value::Int(0),
        _ => Value::Null,
    }
}

pub fn three_valued_not(a: Option<bool>) -> (r: Value)
    ensures
        r@ == not3(a),
{
    match a {
        Some(b) => Value::Int(int_of_bool(!b)),
        None => Value::Null,
    }
}

pub fn known(a: Option<bool>) -> (r: Value)
    ensures
        r@ == known3(a),
{
    match a {
        Some(b) => Value::Int(int_of_bool(b)),
        None => Value::Null,
    }
}

/// Three-valued logic obeys De Morgan, is commutative, and denies twice to the
/// same truth.
pub proof fn law_three_valued(a: Option<bool>, b: Option<bool>)
    ensures
        and3(a, b) == and3(b, a),
        or3(a, b) == or3(b, a),
        truth(not3(truth(and3(a, b)))) == truth(or3(truth(not3(a)), truth(not3(b)))),
        truth(not3(truth(or3(a, b)))) == truth(and3(truth(not3(a)), truth(not3(b)))),
        truth(not3(truth(not3(a)))) == a,
        truth(known3(a)) == a,
{
}

// ---- arithmetic ---------------------------------------------------------------------------

/// An operand of arithmetic as a double.
pub open spec fn operand(t: RealsV, v: ValueV) -> Result<u64, StopV> {
    match v {
        ValueV::Int(i) => Ok(real_of_int(i)),
        ValueV::Real(b) => Ok(b),
        ValueV::Text(s) => match number_of(t, trimmed(s)) {
            Ok(Some(b)) => Ok(b),
            Ok(None) => Err(sql_fail("cannot use text '"@ + s + "' in arithmetic"@)),
            Err(e) => Err(e),
        },
        other => Err(sql_fail("cannot use "@ + class_name(other) + " in arithmetic"@)),
    }
}

pub open spec fn bits_result(r: Result<u64, Stop>) -> Result<u64, StopV> {
    match r {
        Ok(b) => Ok(b),
        Err(e) => Err(e@),
    }
}

pub fn num(reals: &Reals, v: &Value) -> (r: Result<u64, Stop>)
    ensures
        bits_result(r) == operand(reals@, v@),
{
    match v {
        Value::Int(i) => Ok(int_to_real(*i)),
        Value::Real(b) => Ok(*b),
        Value::Text(s) => {
            let cs = to_chars(s);
            let t = trim_chars(&cs);
            match reals.number(&t) {
                Ok(Some(b)) => Ok(b),
                Ok(None) => Err(sql_stop(concat3("cannot use text '", s, "' in arithmetic"))),
                Err(e) => Err(e),
            }
        },
        other => Err(sql_stop(concat3("cannot use ", other.class_name(), " in arithmetic"))),
    }
}

/// The double operation behind an arithmetic operator.
pub open spec fn real_op(op: BinOp) -> Binary {
    match op {
        BinOp::Add => Binary::Plus,
        BinOp::Sub => Binary::Minus,
        BinOp::Mul => Binary::Times,
        BinOp::Div => Binary::Over,
        _ => Binary::Modulo,
    }
}

pub open spec fn exact(op: BinOp, a: int, b: int) -> int {
    match op {
        BinOp::Add => a + b,
        BinOp::Sub => a - b,
        _ => a * b,
    }
}

pub open spec fn asked_real(t: RealsV, op: BinOp, x: u64, y: u64) -> Out {
    match bits_of(t, AskV::Apply2(real_op(op), x, y)) {
        Ok(b) => Ok(ValueV::Real(b)),
        Err(e) => Err(e),
    }
}

/// Arithmetic on two integers: sums and products that do not fit become reals,
/// division by zero is `NULL`, and the one quotient that does not fit an error.
pub open spec fn int_arith(t: RealsV, op: BinOp, a: i64, b: i64) -> Out {
    match op {
        BinOp::Add | BinOp::Sub | BinOp::Mul => if i64::MIN <= exact(op, a as int, b as int)
            <= i64::MAX {
            Ok(ValueV::Int(exact(op, a as int, b as int) as i64))
        } else {
            asked_real(t, op, real_of_int(a), real_of_int(b))
        },
        BinOp::Div => if b == 0 {
            Ok(ValueV::Null)
        } else if quotient(a as int, b as int) > i64::MAX {
            Err(sql_fail("integer out of range"@))
        } else {
            Ok(ValueV::Int(quotient(a as int, b as int) as i64))
        },
        _ => if b == 0 {
            Ok(ValueV::Null)
        } else {
            Ok(ValueV::Int(remainder(a as int, b as int) as i64))
        },
    }
}

/// Arithmetic: `NULL` spreads, two integers stay integers where they can, the
/// rest are doubles, and dividing by zero gives `NULL`.
pub open spec fn arith_of(t: RealsV, op: BinOp, l: ValueV, r: ValueV) -> Out {
    if l is Null || r is Null {
        Ok(ValueV::Null)
    } else {
        match (l, r) {
            (ValueV::Int(a), ValueV::Int(b)) => int_arith(t, op, a, b),
            _ => match operand(t, l) {
                Ok(x) => match operand(t, r) {
                    Ok(y) => if (op == BinOp::Div || op == BinOp::Mod) && real_mag(y) == 0 {
                        Ok(ValueV::Null)
                    } else {
                        asked_real(t, op, x, y)
                    },
                    Err(e) => Err(e),
                },
                Err(e) => Err(e),
            },
        }
    }
}

fn ask_real(reals: &Reals, op: BinOp, x: u64, y: u64) -> (r: Result<Value, Stop>)
    ensures
        value_result(r) == asked_real(reals@, op, x, y),
{
    let b = match op {
        BinOp::Add => Binary::Plus,
        BinOp::Sub => Binary::Minus,
        BinOp::Mul => Binary::Times,
        BinOp::Div => Binary::Over,
        _ => Binary::Modulo,
    };
    match reals.bits(Ask::Apply2(b, x, y)) {
        Ok(r) => Ok(Value::Real(r)),
        Err(e) => Err(e),
    }
}

fn arith_ints(reals: &Reals, op: BinOp, a: i64, b: i64) -> (r: Result<Value, Stop>)
    ensures
        value_result(r) == int_arith(reals@, op, a, b),
{
    match op {
        BinOp::Add | BinOp::Sub | BinOp::Mul => {
            proof {
                assert(-0x4000_0000_0000_0000_0000_0000_0000_0000 <= a as int * b as int
                    <= 0x4000_0000_0000_0000_0000_0000_0000_0000) by (nonlinear_arith)
                    requires
                        -0x8000_0000_0000_0000 <= a <= 0x7fff_ffff_ffff_ffff,
                        -0x8000_0000_0000_0000 <= b <= 0x7fff_ffff_ffff_ffff,
                ;
            }
            let x: i128 = a as i128;
            let y: i128 = b as i128;
            let n: i128 = match op {
                BinOp::Add => x + y,
                BinOp::Sub => x - y,
                _ => x * y,
            };
            if -9_223_372_036_854_775_808 <= n && n <= 9_223_372_036_854_775_807 {
                Ok(Value::Int(n as i64))
            } else {
                ask_real(reals, op, int_to_real(a), int_to_real(b))
            }
        },
        BinOp::Div => if b == 0 {
            Ok(Value::Null)
        } else {
            match divide(a, b) {
                Some(q) => Ok(Value::Int(q)),
                None => Err(sql_stop(owned("integer out of range"))),
            }
        },
        _ => if b == 0 {
            Ok(Value::Null)
        } else {
            Ok(Value::Int(modulo(a, b)))
        },
    }
}

pub fn arith(reals: &Reals, op: BinOp, l: &Value, r: &Value) -> (o: Result<Value, Stop>)
    ensures
        value_result(o) == arith_of(reals@, op, l@, r@),
{
    if l.is_null() || r.is_null() {
        return Ok(Value::Null);
    }
    match (l, r) {
        (Value::Int(a), Value::Int(b)) => arith_ints(reals, op, *a, *b),
        _ => match num(reals, l) {
            Ok(x) => match num(reals, r) {
                Ok(y) => if (op == BinOp::Div || op == BinOp::Mod) && mag_bits(y) == 0 {
                    Ok(Value::Null)
                } else {
                    ask_real(reals, op, x, y)
                },
                Err(e) => Err(e),
            },
            Err(e) => Err(e),
        },
    }
}

// ---- vectors --------------------------------------------------------------------------------

/// A vector, or a text literal of one.
pub open spec fn vector_operand(t: RealsV, v: ValueV) -> Result<Option<Seq<u32>>, StopV> {
    match v {
        ValueV::Vector(x) => Ok(Some(x)),
        ValueV::Text(s) => vector_of_text(t, s),
        _ => Ok(None),
    }
}

pub fn to_vec_operand(reals: &Reals, v: &Value) -> (r: Result<Option<Vec<u32>>, Stop>)
    ensures
        vector_result(r) == vector_operand(reals@, v@),
{
    match v {
        Value::Vector(x) => {
            let c = x.clone();
            assert(c@ =~= x@);
            Ok(Some(c))
        },
        Value::Text(s) => parse_vector(reals, s),
        _ => Ok(None),
    }
}

/// A distance operator: `NULL` spreads, both sides must be vectors of one length.
pub open spec fn distance_of(t: RealsV, op: BinOp, l: ValueV, r: ValueV) -> Out {
    if l is Null || r is Null {
        Ok(ValueV::Null)
    } else {
        match vector_operand(t, l) {
            Ok(x) => match vector_operand(t, r) {
                Ok(y) => match (x, y, op.metric()) {
                    (Some(a), Some(b), Some(m)) => if a.len() != b.len() {
                        Err(
                            sql_fail(
                                "vector dimension mismatch: "@ + nat_text(a.len()) + " vs "@
                                    + nat_text(b.len()),
                            ),
                        )
                    } else {
                        match bits_of(t, AskV::Distance(m, a, b)) {
                            Ok(d) => Ok(ValueV::Real(d)),
                            Err(e) => Err(e),
                        }
                    },
                    _ => Err(sql_fail("vector distance operators require vector operands"@)),
                },
                Err(e) => Err(e),
            },
            Err(e) => Err(e),
        }
    }
}

pub fn vec_distance(reals: &Reals, op: BinOp, l: &Value, r: &Value) -> (o: Result<Value, Stop>)
    ensures
        value_result(o) == distance_of(reals@, op, l@, r@),
{
    if l.is_null() || r.is_null() {
        return Ok(Value::Null);
    }
    let x = match to_vec_operand(reals, l) {
        Ok(x) => x,
        Err(e) => {
            return Err(e);
        },
    };
    let y = match to_vec_operand(reals, r) {
        Ok(y) => y,
        Err(e) => {
            return Err(e);
        },
    };
    match (x, y, op.vec_metric()) {
        (Some(a), Some(b), Some(m)) => if a.len() != b.len() {
            let n = nat_string(a.len() as u64);
            let k = nat_string(b.len() as u64);
            Err(sql_stop(concat4("vector dimension mismatch: ", &n, " vs ", &k)))
        } else {
            match reals.bits(Ask::Distance(m, a, b)) {
                Ok(d) => Ok(Value::Real(d)),
                Err(e) => Err(e),
            }
        },
        _ => Err(sql_stop(owned("vector distance operators require vector operands"))),
    }
}

// ---- operators -------------------------------------------------------------------------------

/// `||`: `NULL` spreads, operands are rendered.
pub open spec fn concat_of(t: RealsV, l: ValueV, r: ValueV) -> Out {
    if l is Null || r is Null {
        Ok(ValueV::Null)
    } else {
        match text_form(t, l) {
            Ok(a) => match text_form(t, r) {
                Ok(b) => Ok(ValueV::Text(a + b)),
                Err(e) => Err(e),
            },
            Err(e) => Err(e),
        }
    }
}

/// A comparison operator on what is known of the operands.
pub open spec fn compare_of(op: BinOp, l: ValueV, r: ValueV) -> Option<bool> {
    let o = value_order(l, r);
    match op {
        BinOp::Eq => value_eq(l, r),
        BinOp::Ne => match value_eq(l, r) {
            Some(b) => Some(!b),
            None => None,
        },
        _ => match o {
            None => None,
            Some(x) => Some(
                match op {
                    BinOp::Lt => x == Order::Less,
                    BinOp::Le => x != Order::Greater,
                    BinOp::Gt => x == Order::Greater,
                    _ => x != Order::Less,
                },
            ),
        },
    }
}

/// A binary operator on values.
#[verifier::opaque]
pub open spec fn binary_of(t: RealsV, op: BinOp, l: ValueV, r: ValueV) -> Out {
    match op {
        BinOp::Eq | BinOp::Ne | BinOp::Lt | BinOp::Le | BinOp::Gt | BinOp::Ge => Ok(
            known3(compare_of(op, l, r)),
        ),
        BinOp::And => Ok(and3(truth(l), truth(r))),
        BinOp::Or => Ok(or3(truth(l), truth(r))),
        BinOp::Add | BinOp::Sub | BinOp::Mul | BinOp::Div | BinOp::Mod => arith_of(t, op, l, r),
        BinOp::Concat => concat_of(t, l, r),
        BinOp::VecL2 | BinOp::VecCosine | BinOp::VecIp => distance_of(t, op, l, r),
    }
}

fn concat_values(reals: &Reals, l: &Value, r: &Value) -> (o: Result<Value, Stop>)
    ensures
        value_result(o) == concat_of(reals@, l@, r@),
{
    if l.is_null() || r.is_null() {
        return Ok(Value::Null);
    }
    match l.text_of(reals) {
        Ok(mut a) => match r.text_of(reals) {
            Ok(mut b) => {
                a.append(&mut b);
                Ok(Value::Text(from_chars(&a)))
            },
            Err(e) => Err(e),
        },
        Err(e) => Err(e),
    }
}

fn compare_op(op: BinOp, l: &Value, r: &Value) -> (o: Option<bool>)
    ensures
        o == compare_of(op, l@, r@),
{
    match op {
        BinOp::Eq => l.sql_eq(r),
        BinOp::Ne => match l.sql_eq(r) {
            Some(b) => Some(!b),
            None => None,
        },
        _ => match l.compare(r) {
            None => None,
            Some(x) => Some(
                match op {
                    BinOp::Lt => x == Order::Less,
                    BinOp::Le => x != Order::Greater,
                    BinOp::Gt => x == Order::Greater,
                    _ => x != Order::Less,
                },
            ),
        },
    }
}

pub fn eval_binary(reals: &Reals, op: BinOp, l: &Value, r: &Value) -> (o: Result<Value, Stop>)
    ensures
        value_result(o) == binary_of(reals@, op, l@, r@),
{
    proof {
        reveal(binary_of);
    }
    match op {
        BinOp::Eq | BinOp::Ne | BinOp::Lt | BinOp::Le | BinOp::Gt | BinOp::Ge => Ok(
            known(compare_op(op, l, r)),
        ),
        BinOp::And => Ok(three_valued_and(l.as_bool(), r.as_bool())),
        BinOp::Or => Ok(three_valued_or(l.as_bool(), r.as_bool())),
        BinOp::Add | BinOp::Sub | BinOp::Mul | BinOp::Div | BinOp::Mod => arith(reals, op, l, r),
        BinOp::Concat => concat_values(reals, l, r),
        BinOp::VecL2 | BinOp::VecCosine | BinOp::VecIp => vec_distance(reals, op, l, r),
    }
}

/// Negation that wraps: the smallest integer is its own negative.
pub open spec fn wrapped_neg(i: i64) -> i64 {
    if i == i64::MIN {
        i
    } else {
        (-i) as i64
    }
}

/// A unary operator on a value.
#[verifier::opaque]
pub open spec fn unary_value(op: UnOp, v: ValueV) -> Out {
    match op {
        UnOp::Not => Ok(not3(truth(v))),
        UnOp::Neg => match v {
            ValueV::Null => Ok(ValueV::Null),
            ValueV::Int(i) => Ok(ValueV::Int(wrapped_neg(i))),
            ValueV::Real(b) => Ok(ValueV::Real(real_negate(b))),
            other => Err(sql_fail("cannot negate "@ + class_name(other))),
        },
    }
}

pub fn apply_unary(op: UnOp, v: &Value) -> (r: Result<Value, Stop>)
    ensures
        value_result(r) == unary_value(op, v@),
{
    proof {
        reveal(unary_value);
    }
    match op {
        UnOp::Not => Ok(three_valued_not(v.as_bool())),
        UnOp::Neg => match v {
            Value::Null => Ok(Value::Null),
            Value::Int(i) => Ok(
                Value::Int(
                    if *i == i64::MIN {
                        *i
                    } else {
                        0 - *i
                    },
                ),
            ),
            Value::Real(b) => Ok(Value::Real(negate(*b))),
            other => Err(sql_stop(concat2("cannot negate ", other.class_name()))),
        },
    }
}

// ---- casts -------------------------------------------------------------------------------------

/// A text as an integer: an integer literal, or a real one rounded.
pub open spec fn int_of_literal(t: RealsV, s: Seq<char>) -> Out {
    let x = trimmed(s);
    match i64_of_text(x) {
        Some(i) => Ok(ValueV::Int(i)),
        None => match number_of(t, x) {
            Ok(Some(b)) => Ok(ValueV::Int(real_round_int(b))),
            Ok(None) => Err(
                sql_fail("invalid input syntax for type integer: "@ + debug_text(s)),
            ),
            Err(e) => Err(e),
        },
    }
}

/// A cast; `NULL` and unmodelled targets pass through.
#[verifier::opaque]
pub open spec fn cast_of(t: RealsV, v: ValueV, target: CastTarget) -> Out {
    if v is Null {
        Ok(v)
    } else {
        match target {
            CastTarget::Passthrough => Ok(v),
            CastTarget::Int => match v {
                ValueV::Int(i) => Ok(ValueV::Int(i)),
                ValueV::Real(b) => Ok(ValueV::Int(real_round_int(b))),
                ValueV::Text(s) => int_of_literal(t, s),
                other => Err(sql_fail("cannot cast "@ + class_name(other) + " to "@ + "integer"@)),
            },
            CastTarget::Real => match v {
                ValueV::Int(i) => Ok(ValueV::Real(real_of_int(i))),
                ValueV::Real(b) => Ok(ValueV::Real(b)),
                ValueV::Text(s) => match number_of(t, trimmed(s)) {
                    Ok(Some(b)) => Ok(ValueV::Real(b)),
                    Ok(None) => Err(
                        sql_fail("invalid input syntax for type real: "@ + debug_text(s)),
                    ),
                    Err(e) => Err(e),
                },
                other => Err(sql_fail("cannot cast "@ + class_name(other) + " to "@ + "real"@)),
            },
            CastTarget::Text => match text_form(t, v) {
                Ok(s) => Ok(ValueV::Text(s)),
                Err(e) => Err(e),
            },
            CastTarget::Bool => Ok(known3(truth(v))),
        }
    }
}

fn parse_int_text(reals: &Reals, s: &str) -> (r: Result<Value, Stop>)
    ensures
        value_result(r) == int_of_literal(reals@, s@),
{
    let cs = to_chars(s);
    let t = trim_chars(&cs);
    match parse_i64(&t) {
        Some(i) => Ok(Value::Int(i)),
        None => match reals.number(&t) {
            Ok(Some(b)) => Ok(Value::Int(round_to_int(b))),
            Ok(None) => {
                let d = debug_string(s);
                Err(sql_stop(concat2("invalid input syntax for type integer: ", &d)))
            },
            Err(e) => Err(e),
        },
    }
}

fn cast_err(v: &Value, ty: &str) -> (s: Stop)
    ensures
        s@ == sql_fail("cannot cast "@ + class_name(v@) + " to "@ + ty@),
{
    sql_stop(concat4("cannot cast ", v.class_name(), " to ", ty))
}

pub fn cast_value(reals: &Reals, v: Value, target: CastTarget) -> (r: Result<Value, Stop>)
    ensures
        value_result(r) == cast_of(reals@, v@, target),
{
    proof {
        reveal(cast_of);
    }
    if v.is_null() {
        return Ok(v);
    }
    match target {
        CastTarget::Passthrough => Ok(v),
        CastTarget::Int => match &v {
            Value::Int(i) => Ok(Value::Int(*i)),
            Value::Real(b) => Ok(Value::Int(round_to_int(*b))),
            Value::Text(s) => parse_int_text(reals, s),
            other => Err(cast_err(other, "integer")),
        },
        CastTarget::Real => match &v {
            Value::Int(i) => Ok(Value::Real(int_to_real(*i))),
            Value::Real(b) => Ok(Value::Real(*b)),
            Value::Text(s) => {
                let cs = to_chars(s);
                let t = trim_chars(&cs);
                match reals.number(&t) {
                    Ok(Some(b)) => Ok(Value::Real(b)),
                    Ok(None) => {
                        let d = debug_string(s);
                        Err(sql_stop(concat2("invalid input syntax for type real: ", &d)))
                    },
                    Err(e) => Err(e),
                }
            },
            other => Err(cast_err(other, "real")),
        },
        CastTarget::Text => match v.text_of(reals) {
            Ok(s) => Ok(Value::Text(from_chars(&s))),
            Err(e) => Err(e),
        },
        CastTarget::Bool => Ok(known(v.as_bool())),
    }
}

// ---- LIKE ------------------------------------------------------------------------------------

/// One piece of a compiled pattern.
#[derive(Clone, Copy, Debug, PartialEq, Eq, Structural)]
pub enum LikeTok {
    /// `%`: any run.
    Any,
    /// `_`: any one character.
    One,
    Lit(char),
}

pub open spec fn folded(c: char, insensitive: bool) -> char {
    if insensitive {
        lower_char(c)
    } else {
        c
    }
}

/// The pieces of a pattern from `i` on, behind `acc`; an escape character takes
/// the next character literally.
pub open spec fn like_tokens(
    p: Seq<char>,
    esc: Option<char>,
    insensitive: bool,
    i: int,
    acc: Seq<LikeTok>,
) -> Seq<LikeTok>
    decreases p.len() - i,
{
    if i < 0 || i >= p.len() {
        acc
    } else if esc == Some(p[i]) {
        let lit = if i + 1 < p.len() {
            p[i + 1]
        } else {
            p[i]
        };
        let next = if i + 1 < p.len() {
            i + 2
        } else {
            i + 1
        };
        like_tokens(p, esc, insensitive, next, acc.push(LikeTok::Lit(folded(lit, insensitive))))
    } else {
        let tok = if p[i] == '%' {
            LikeTok::Any
        } else if p[i] == '_' {
            LikeTok::One
        } else {
            LikeTok::Lit(folded(p[i], insensitive))
        };
        like_tokens(p, esc, insensitive, i + 1, acc.push(tok))
    }
}

/// Whether a text is matched by a compiled pattern.
pub open spec fn like_matches(s: Seq<char>, p: Seq<LikeTok>) -> bool
    decreases p.len(), s.len(),
{
    if p.len() == 0 {
        s.len() == 0
    } else {
        match p[0] {
            LikeTok::Any => like_matches(s, p.drop_first()) || (s.len() > 0 && like_matches(
                s.drop_first(),
                p,
            )),
            LikeTok::One => s.len() > 0 && like_matches(s.drop_first(), p.drop_first()),
            LikeTok::Lit(c) => s.len() > 0 && s[0] == c && like_matches(
                s.drop_first(),
                p.drop_first(),
            ),
        }
    }
}

pub open spec fn folded_text(s: Seq<char>, insensitive: bool) -> Seq<char> {
    Seq::new(s.len(), |i: int| folded(s[i], insensitive))
}

/// `LIKE` (and, case-folding, `ILIKE`).
pub open spec fn like_of(s: Seq<char>, p: Seq<char>, esc: Option<char>, insensitive: bool) -> bool {
    like_matches(
        folded_text(s, insensitive),
        like_tokens(p, esc, insensitive, 0, Seq::empty()),
    )
}

fn fold_char(c: char, insensitive: bool) -> (r: char)
    ensures
        r == folded(c, insensitive),
{
    if insensitive {
        lower_of(c)
    } else {
        c
    }
}

/// Match a text from `i` on against pattern pieces from `j` on.
pub fn like_go(s: &[char], i: usize, p: &[LikeTok], j: usize) -> (r: bool)
    requires
        i <= s.len(),
        j <= p.len(),
    ensures
        r == like_matches(s@.skip(i as int), p@.skip(j as int)),
    decreases p.len() - j, s.len() - i,
{
    if j == p.len() {
        return i == s.len();
    }
    assert(p@.skip(j as int)[0] == p@[j as int]);
    assert(p@.skip(j as int).drop_first() =~= p@.skip(j + 1));
    match p[j] {
        LikeTok::Any => {
            let mut k: usize = i;
            loop
                invariant
                    i <= k <= s.len(),
                    j < p.len(),
                    p@[j as int] == LikeTok::Any,
                    p@.skip(j as int)[0] == p@[j as int],
                    p@.skip(j as int).drop_first() == p@.skip(j + 1),
                    like_matches(s@.skip(i as int), p@.skip(j as int)) == like_matches(
                        s@.skip(k as int),
                        p@.skip(j as int),
                    ),
                decreases s.len() - k,
            {
                if like_go(s, k, p, j + 1) {
                    return true;
                }
                if k == s.len() {
                    return false;
                }
                assert(s@.skip(k as int).drop_first() =~= s@.skip(k + 1));
                k += 1;
            }
        },
        LikeTok::One => {
            if i == s.len() {
                return false;
            }
            assert(s@.skip(i as int).drop_first() =~= s@.skip(i + 1));
            like_go(s, i + 1, p, j + 1)
        },
        LikeTok::Lit(c) => {
            if i == s.len() || s[i] != c {
                return false;
            }
            assert(s@.skip(i as int).drop_first() =~= s@.skip(i + 1));
            like_go(s, i + 1, p, j + 1)
        },
    }
}

/// `LIKE` with `%` and `_`; `insensitive` folds ASCII case.
pub fn like_match(s: &str, pattern: &str, escape: Option<char>, insensitive: bool) -> (r: bool)
    ensures
        r == like_of(s@, pattern@, escape, insensitive),
{
    let sc = to_chars(s);
    let mut fs: Vec<char> = Vec::new();
    let mut i: usize = 0;
    while i < sc.len()
        invariant
            i <= sc.len(),
            sc@ == s@,
            fs@ == folded_text(s@, insensitive).take(i as int),
        decreases sc.len() - i,
    {
        fs.push(fold_char(sc[i], insensitive));
        assert(fs@ =~= folded_text(s@, insensitive).take(i + 1));
        i += 1;
    }
    assert(fs@ =~= folded_text(s@, insensitive));
    let pc = to_chars(pattern);
    let mut toks: Vec<LikeTok> = Vec::new();
    let mut j: usize = 0;
    assert(toks@ =~= Seq::<LikeTok>::empty());
    while j < pc.len()
        invariant
            j <= pc.len(),
            pc@ == pattern@,
            like_tokens(pattern@, escape, insensitive, j as int, toks@) == like_tokens(
                pattern@,
                escape,
                insensitive,
                0,
                Seq::empty(),
            ),
        decreases pc.len() - j,
    {
        let c = pc[j];
        let escaped = match escape {
            Some(x) => x == c,
            None => false,
        };
        if escaped {
            let lit = if j + 1 < pc.len() {
                pc[j + 1]
            } else {
                c
            };
            toks.push(LikeTok::Lit(fold_char(lit, insensitive)));
            if j + 1 < pc.len() {
                j += 2;
            } else {
                j += 1;
            }
        } else {
            let tok = if c == '%' {
                LikeTok::Any
            } else if c == '_' {
                LikeTok::One
            } else {
                LikeTok::Lit(fold_char(c, insensitive))
            };
            toks.push(tok);
            j += 1;
        }
    }
    assert(fs@.skip(0) =~= fs@);
    assert(toks@.skip(0) =~= toks@);
    like_go(&fs, 0, &toks, 0)
}

// ---- keys ----------------------------------------------------------------------------------

/// A vector component up to the payload of a NaN.
pub open spec fn canonical32(b: u32) -> u32 {
    if mag32(b) > INF_BITS32 {
        0x7FC0_0000
    } else {
        b
    }
}

pub open spec fn components_key(v: Seq<u32>) -> Seq<char>
    decreases v.len(),
{
    if v.len() == 0 {
        Seq::empty()
    } else {
        components_key(v.drop_last()) + nat_text(canonical32(v.last()) as nat).push(',')
    }
}

/// A text by which equal values are recognized.
pub open spec fn value_key(v: ValueV) -> Seq<char> {
    match v {
        ValueV::Null => "\0null"@,
        ValueV::Int(i) => seq!['i'] + int_text(i as int),
        ValueV::Real(b) => seq!['r'] + nat_text(b as nat),
        ValueV::Text(s) => seq!['t'] + s,
        ValueV::Blob(b) => seq!['b'] + base64_text(b),
        ValueV::Vector(x) => seq!['v'] + components_key(x),
    }
}

/// The keys of a row one behind the other, each with its length behind it.
pub open spec fn row_key(r: RowV) -> Seq<char>
    decreases r.len(),
{
    if r.len() == 0 {
        Seq::empty()
    } else {
        let key = value_key(r.last());
        row_key(r.drop_last()) + key.push(',') + nat_text(key.len())
    }
}

pub fn key_of_value(v: &Value) -> (r: Vec<char>)
    ensures
        r@ == value_key(v@),
{
    let mut out: Vec<char> = Vec::new();
    match v {
        Value::Null => {
            return to_chars("\0null");
        },
        Value::Int(i) => {
            out.push('i');
            let mut t = int_chars(*i);
            out.append(&mut t);
        },
        Value::Real(b) => {
            out.push('r');
            let mut t = nat_chars(*b);
            out.append(&mut t);
        },
        Value::Text(s) => {
            out.push('t');
            let mut t = to_chars(s);
            out.append(&mut t);
        },
        Value::Blob(b) => {
            out.push('b');
            let s = base64_encode(b);
            let mut t = to_chars(&s);
            out.append(&mut t);
        },
        Value::Vector(x) => {
            out.push('v');
            let ghost head = out@;
            let mut i: usize = 0;
            assert(x@.take(0) =~= Seq::<u32>::empty());
            assert(out@ =~= head + components_key(x@.take(0)));
            while i < x.len()
                invariant
                    i <= x.len(),
                    out@ == head + components_key(x@.take(i as int)),
                decreases x.len() - i,
            {
                assert(x@.take(i + 1).drop_last() =~= x@.take(i as int));
                let b: u32 = x[i];
                let m: u32 = if b >= SIGN_BIT32 {
                    b - SIGN_BIT32
                } else {
                    b
                };
                let c: u32 = if m > INF_BITS32 {
                    0x7FC0_0000
                } else {
                    b
                };
                let mut t = nat_chars(c as u64);
                out.append(&mut t);
                out.push(',');
                assert(out@ =~= head + components_key(x@.take(i + 1)));
                i += 1;
            }
            assert(x@.take(i as int) =~= x@);
        },
    }
    assert(out@ =~= value_key(v@));
    out
}

/// The key of a whole row.
pub fn key_of_row(r: &[Value]) -> (k: Vec<char>)
    ensures
        k@ == row_key(row_view(r@)),
{
    let ghost rv = row_view(r@);
    let mut out: Vec<char> = Vec::new();
    let mut i: usize = 0;
    assert(rv.take(0) =~= Seq::<ValueV>::empty());
    assert(out@ =~= row_key(rv.take(0)));
    while i < r.len()
        invariant
            i <= r.len(),
            rv == row_view(r@),
            out@ == row_key(rv.take(i as int)),
        decreases r.len() - i,
    {
        assert(rv.take(i + 1).drop_last() =~= rv.take(i as int));
        assert(rv.take(i + 1).last() == r@[i as int]@);
        let mut t = key_of_value(&r[i]);
        let mut length = nat_chars(t.len() as u64);
        out.append(&mut t);
        out.push(',');
        out.append(&mut length);
        assert(out@ =~= row_key(rv.take(i + 1)));
        i += 1;
    }
    assert(rv.take(i as int) =~= rv);
    out
}

// ---- ordering --------------------------------------------------------------------------------

/// The order of two values under an `ORDER BY` key: direction for the known ones,
/// `NULL`s first or last whatever the direction.
pub open spec fn key_order(a: ValueV, b: ValueV, asc: bool, nulls_first: bool) -> Order {
    if a is Null && b is Null {
        Order::Equal
    } else if a is Null {
        if nulls_first {
            Order::Less
        } else {
            Order::Greater
        }
    } else if b is Null {
        if nulls_first {
            Order::Greater
        } else {
            Order::Less
        }
    } else {
        let o = match value_order(a, b) {
            Some(o) => o,
            None => Order::Equal,
        };
        if asc {
            o
        } else {
            o.flipped()
        }
    }
}

pub fn order_values(a: &Value, b: &Value, asc: bool, nulls_first: bool) -> (r: Order)
    ensures
        r == key_order(a@, b@, asc, nulls_first),
{
    match (a.is_null(), b.is_null()) {
        (true, true) => Order::Equal,
        (true, false) => if nulls_first {
            Order::Less
        } else {
            Order::Greater
        },
        (false, true) => if nulls_first {
            Order::Greater
        } else {
            Order::Less
        },
        (false, false) => {
            let o = match a.compare(b) {
                Some(o) => o,
                None => Order::Equal,
            };
            if asc {
                o
            } else {
                o.reverse()
            }
        },
    }
}

} // verus!
