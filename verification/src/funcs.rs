//! The scalar functions of SQL expressions.
use vstd::prelude::*;
use crate::asks::{bits_of, number_of, Ask, AskV, Binary, Reals, RealsV, Stop, StopV, Unary};
use crate::datetime::{
    clock, date_text, date_trunc, day_of_week, day_of_year, epoch_of_text, format_date, format_time,
    format_timestamp, parse_epoch_secs, parts, time_text, timestamp_text, unit_named, unit_start,
    weekday, yearday,
};
use crate::env::{own_place, sql_fail, sql_stop, Env, EnvV, Out};
use crate::ieee::{
    compare_reals, int_to_real, is_integral, mag_bits, nat_to_real, real_finite, real_integral,
    real_mag, real_of_int, real_of_nat, real_order, real_round_int, real_rounded, real_to_int,
    round_real, round_to_int, to_int, BIG_BITS, INF_BITS, Order, PI_BITS, Rounding,
};
use crate::json::{
    document, element, json_quote, json_quoted, json_text, member, plain_text, push_quoted,
    value_at_path, Json, JsonV,
};
use crate::session::{claim_of, role_of};
use crate::strfn::{
    copies, copy_chars, find_occurrence, gen_uuid_v4, hex_text, lowercase, occurrence, pad_chars,
    padded, replace_chars, replaced, reverse_chars, reversed, to_hex, unicode_lower, unicode_upper,
    uppercase, uuid_text,
};
use crate::text::{
    bool_int, concat2, concat3, from_chars, i64_of_text, int_chars, int_text, lower_chars,
    lower_text, names_match, owned, padded_int, parse_i64, push_padded, same_name, slice_chars,
    spells, to_chars, trim_chars, trim_left, trim_left_chars, trim_right, trim_right_chars, trimmed,
};
use crate::value::{
    class_name, row_view, text_form, text_result, truth, value_eq, value_order, value_result, RowV,
    Value, ValueV,
};

verus! {

/// The scalar functions.
#[derive(Clone, Copy, Debug, PartialEq, Eq, Structural)]
pub enum Func {
    Coalesce,
    Nullif,
    Ifnull,
    Iif,
    Greatest,
    Least,
    Lower,
    Upper,
    Trim,
    Ltrim,
    Rtrim,
    Length,
    Concat,
    Abs,
    Round,
    Substr,
    Replace,
    Instr,
    Repeat,
    Reverse,
    Left,
    Right,
    Lpad,
    Rpad,
    Ceil,
    Floor,
    Sqrt,
    Exp,
    Ln,
    Log,
    Sign,
    Trunc,
    Power,
    Mod,
    Pi,
    Now,
    CurrentDate,
    CurrentTime,
    Date,
    Datetime,
    Time,
    Unixepoch,
    DateTrunc,
    Extract,
    Strftime,
    Uuid,
    Random,
    Typeof,
    Hex,
    JsonGet,
    JsonGetText,
    JsonExtract,
    JsonArray,
    ToJson,
    JsonObject,
    AuthUid,
    AuthRole,
    AuthClaim,
}

/// The function a (lower-cased) name stands for.
pub open spec fn func_named(n: Seq<char>) -> Option<Func> {
    if n == "coalesce"@ {
        Some(Func::Coalesce)
    } else if n == "nullif"@ {
        Some(Func::Nullif)
    } else if n == "ifnull"@ {
        Some(Func::Ifnull)
    } else if n == "iif"@ || n == "if"@ {
        Some(Func::Iif)
    } else if n == "greatest"@ {
        Some(Func::Greatest)
    } else if n == "least"@ {
        Some(Func::Least)
    } else if n == "lower"@ {
        Some(Func::Lower)
    } else if n == "upper"@ {
        Some(Func::Upper)
    } else if n == "trim"@ || n == "btrim"@ {
        Some(Func::Trim)
    } else if n == "ltrim"@ {
        Some(Func::Ltrim)
    } else if n == "rtrim"@ {
        Some(Func::Rtrim)
    } else if n == "length"@ || n == "char_length"@ || n == "character_length"@ {
        Some(Func::Length)
    } else if n == "concat"@ {
        Some(Func::Concat)
    } else if n == "abs"@ {
        Some(Func::Abs)
    } else if n == "round"@ {
        Some(Func::Round)
    } else if n == "substr"@ || n == "substring"@ {
        Some(Func::Substr)
    } else if n == "replace"@ {
        Some(Func::Replace)
    } else if n == "instr"@ || n == "strpos"@ {
        Some(Func::Instr)
    } else if n == "repeat"@ {
        Some(Func::Repeat)
    } else if n == "reverse"@ {
        Some(Func::Reverse)
    } else if n == "left"@ {
        Some(Func::Left)
    } else if n == "right"@ {
        Some(Func::Right)
    } else if n == "lpad"@ {
        Some(Func::Lpad)
    } else if n == "rpad"@ {
        Some(Func::Rpad)
    } else {
        func_named_number(n)
    }
}

/// The mathematical functions by name, then the rest.
pub open spec fn func_named_number(n: Seq<char>) -> Option<Func> {
    if n == "ceil"@ || n == "ceiling"@ {
        Some(Func::Ceil)
    } else if n == "floor"@ {
        Some(Func::Floor)
    } else if n == "sqrt"@ {
        Some(Func::Sqrt)
    } else if n == "exp"@ {
        Some(Func::Exp)
    } else if n == "ln"@ {
        Some(Func::Ln)
    } else if n == "log"@ || n == "log10"@ {
        Some(Func::Log)
    } else if n == "sign"@ {
        Some(Func::Sign)
    } else if n == "trunc"@ {
        Some(Func::Trunc)
    } else if n == "power"@ || n == "pow"@ {
        Some(Func::Power)
    } else if n == "mod"@ {
        Some(Func::Mod)
    } else if n == "pi"@ {
        Some(Func::Pi)
    } else {
        func_named_other(n)
    }
}

/// The date, identifier, JSON and session functions by name.
pub open spec fn func_named_other(n: Seq<char>) -> Option<Func> {
    if n == "now"@ || n == "current_timestamp"@ || n == "transaction_timestamp"@ || n
        == "statement_timestamp"@ || n == "clock_timestamp"@ || n == "localtimestamp"@ {
        Some(Func::Now)
    } else if n == "current_date"@ {
        Some(Func::CurrentDate)
    } else if n == "current_time"@ || n == "localtime"@ {
        Some(Func::CurrentTime)
    } else if n == "date"@ {
        Some(Func::Date)
    } else if n == "datetime"@ {
        Some(Func::Datetime)
    } else if n == "time"@ {
        Some(Func::Time)
    } else if n == "unixepoch"@ {
        Some(Func::Unixepoch)
    } else if n == "date_trunc"@ {
        Some(Func::DateTrunc)
    } else if n == "extract"@ {
        Some(Func::Extract)
    } else if n == "strftime"@ {
        Some(Func::Strftime)
    } else if n == "gen_random_uuid"@ || n == "uuid_generate_v4"@ {
        Some(Func::Uuid)
    } else if n == "random"@ {
        Some(Func::Random)
    } else if n == "typeof"@ {
        Some(Func::Typeof)
    } else if n == "hex"@ {
        Some(Func::Hex)
    } else if n == "json_get"@ {
        Some(Func::JsonGet)
    } else if n == "json_get_text"@ {
        Some(Func::JsonGetText)
    } else if n == "json_extract"@ {
        Some(Func::JsonExtract)
    } else if n == "json_array"@ || n == "json_build_array"@ || n == "jsonb_build_array"@ {
        Some(Func::JsonArray)
    } else if n == "to_json"@ || n == "to_jsonb"@ {
        Some(Func::ToJson)
    } else if n == "json_build_object"@ || n == "jsonb_build_object"@ {
        Some(Func::JsonObject)
    } else if n == "auth.uid"@ {
        Some(Func::AuthUid)
    } else if n == "auth.role"@ {
        Some(Func::AuthRole)
    } else if n == "auth.claim"@ {
        Some(Func::AuthClaim)
    } else {
        None
    }
}

fn func_of(n: &[char]) -> (r: Option<Func>)
    ensures
        r == func_named(n@),
{
    if spells(n, "coalesce") {
        Some(Func::Coalesce)
    } else if spells(n, "nullif") {
        Some(Func::Nullif)
    } else if spells(n, "ifnull") {
        Some(Func::Ifnull)
    } else if spells(n, "iif") || spells(n, "if") {
        Some(Func::Iif)
    } else if spells(n, "greatest") {
        Some(Func::Greatest)
    } else if spells(n, "least") {
        Some(Func::Least)
    } else if spells(n, "lower") {
        Some(Func::Lower)
    } else if spells(n, "upper") {
        Some(Func::Upper)
    } else if spells(n, "trim") || spells(n, "btrim") {
        Some(Func::Trim)
    } else if spells(n, "ltrim") {
        Some(Func::Ltrim)
    } else if spells(n, "rtrim") {
        Some(Func::Rtrim)
    } else if spells(n, "length") || spells(n, "char_length") || spells(n, "character_length") {
        Some(Func::Length)
    } else if spells(n, "concat") {
        Some(Func::Concat)
    } else if spells(n, "abs") {
        Some(Func::Abs)
    } else if spells(n, "round") {
        Some(Func::Round)
    } else if spells(n, "substr") || spells(n, "substring") {
        Some(Func::Substr)
    } else if spells(n, "replace") {
        Some(Func::Replace)
    } else if spells(n, "instr") || spells(n, "strpos") {
        Some(Func::Instr)
    } else if spells(n, "repeat") {
        Some(Func::Repeat)
    } else if spells(n, "reverse") {
        Some(Func::Reverse)
    } else if spells(n, "left") {
        Some(Func::Left)
    } else if spells(n, "right") {
        Some(Func::Right)
    } else if spells(n, "lpad") {
        Some(Func::Lpad)
    } else if spells(n, "rpad") {
        Some(Func::Rpad)
    } else {
        func_of_number(n)
    }
}

fn func_of_number(n: &[char]) -> (r: Option<Func>)
    ensures
        r == func_named_number(n@),
{
    if spells(n, "ceil") || spells(n, "ceiling") {
        Some(Func::Ceil)
    } else if spells(n, "floor") {
        Some(Func::Floor)
    } else if spells(n, "sqrt") {
        Some(Func::Sqrt)
    } else if spells(n, "exp") {
        Some(Func::Exp)
    } else if spells(n, "ln") {
        Some(Func::Ln)
    } else if spells(n, "log") || spells(n, "log10") {
        Some(Func::Log)
    } else if spells(n, "sign") {
        Some(Func::Sign)
    } else if spells(n, "trunc") {
        Some(Func::Trunc)
    } else if spells(n, "power") || spells(n, "pow") {
        Some(Func::Power)
    } else if spells(n, "mod") {
        Some(Func::Mod)
    } else if spells(n, "pi") {
        Some(Func::Pi)
    } else {
        func_of_other(n)
    }
}

fn func_of_other(n: &[char]) -> (r: Option<Func>)
    ensures
        r == func_named_other(n@),
{
    if spells(n, "now") || spells(n, "current_timestamp") || spells(n, "transaction_timestamp")
        || spells(n, "statement_timestamp") || spells(n, "clock_timestamp") || spells(
        n,
        "localtimestamp",
    ) {
        Some(Func::Now)
    } else if spells(n, "current_date") {
        Some(Func::CurrentDate)
    } else if spells(n, "current_time") || spells(n, "localtime") {
        Some(Func::CurrentTime)
    } else if spells(n, "date") {
        Some(Func::Date)
    } else if spells(n, "datetime") {
        Some(Func::Datetime)
    } else if spells(n, "time") {
        Some(Func::Time)
    } else if spells(n, "unixepoch") {
        Some(Func::Unixepoch)
    } else if spells(n, "date_trunc") {
        Some(Func::DateTrunc)
    } else if spells(n, "extract") {
        Some(Func::Extract)
    } else if spells(n, "strftime") {
        Some(Func::Strftime)
    } else if spells(n, "gen_random_uuid") || spells(n, "uuid_generate_v4") {
        Some(Func::Uuid)
    } else if spells(n, "random") {
        Some(Func::Random)
    } else if spells(n, "typeof") {
        Some(Func::Typeof)
    } else if spells(n, "hex") {
        Some(Func::Hex)
    } else if spells(n, "json_get") {
        Some(Func::JsonGet)
    } else if spells(n, "json_get_text") {
        Some(Func::JsonGetText)
    } else if spells(n, "json_extract") {
        Some(Func::JsonExtract)
    } else if spells(n, "json_array") || spells(n, "json_build_array") || spells(
        n,
        "jsonb_build_array",
    ) {
        Some(Func::JsonArray)
    } else if spells(n, "to_json") || spells(n, "to_jsonb") {
        Some(Func::ToJson)
    } else if spells(n, "json_build_object") || spells(n, "jsonb_build_object") {
        Some(Func::JsonObject)
    } else if spells(n, "auth.uid") {
        Some(Func::AuthUid)
    } else if spells(n, "auth.role") {
        Some(Func::AuthRole)
    } else if spells(n, "auth.claim") {
        Some(Func::AuthClaim)
    } else {
        None
    }
}

// ---- arguments -------------------------------------------------------------------------

/// An argument, `NULL` where it is missing.
pub open spec fn arg(args: RowV, i: int) -> ValueV {
    if 0 <= i < args.len() {
        args[i]
    } else {
        ValueV::Null
    }
}

fn arg_at(args: &[Value], i: usize) -> (r: Value)
    ensures
        r@ == arg(row_view(args@), i as int),
{
    if i < args.len() {
        args[i].clone()
    } else {
        Value::Null
    }
}

/// A value as a number: integers, reals, and texts that denote one.
pub open spec fn as_number(t: RealsV, v: ValueV) -> Result<Option<u64>, StopV> {
    match v {
        ValueV::Int(i) => Ok(Some(real_of_int(i))),
        ValueV::Real(b) => Ok(Some(b)),
        ValueV::Text(s) => number_of(t, trimmed(s)),
        _ => Ok(None),
    }
}

pub open spec fn number_result(r: Result<Option<u64>, Stop>) -> Result<Option<u64>, StopV> {
    match r {
        Ok(o) => Ok(o),
        Err(e) => Err(e@),
    }
}

pub fn number_value(reals: &Reals, v: &Value) -> (r: Result<Option<u64>, Stop>)
    ensures
        number_result(r) == as_number(reals@, v@),
{
    match v {
        Value::Int(i) => Ok(Some(int_to_real(*i))),
        Value::Real(b) => Ok(Some(*b)),
        Value::Text(s) => {
            let cs = to_chars(s);
            let t = trim_chars(&cs);
            reals.number(&t)
        },
        _ => Ok(None),
    }
}

fn number_arg(reals: &Reals, args: &[Value], i: usize) -> (r: Result<Option<u64>, Stop>)
    ensures
        number_result(r) == as_number(reals@, arg(row_view(args@), i as int)),
{
    if i < args.len() {
        number_value(reals, &args[i])
    } else {
        Ok(None)
    }
}

/// The first argument that is not `NULL`, from `i` on.
pub open spec fn first_known(args: RowV, i: int) -> ValueV
    decreases args.len() - i,
{
    if i < 0 || i >= args.len() {
        ValueV::Null
    } else if !(args[i] is Null) {
        args[i]
    } else {
        first_known(args, i + 1)
    }
}

fn coalesce(args: &[Value]) -> (r: Value)
    ensures
        r@ == first_known(row_view(args@), 0),
{
    let ghost av = row_view(args@);
    let mut i: usize = 0;
    while i < args.len()
        invariant
            i <= args.len(),
            av == row_view(args@),
            first_known(av, i as int) == first_known(av, 0),
        decreases args.len() - i,
    {
        assert(av[i as int] == args@[i as int]@);
        if !args[i].is_null() {
            return args[i].clone();
        }
        i += 1;
    }
    Value::Null
}

/// The extreme of the known arguments from `i` on; `best` is the one so far.
/// An argument gives way to a later one unless it compares as `want`.
pub open spec fn extreme_from(args: RowV, want: Order, i: int, best: ValueV) -> ValueV
    decreases args.len() - i,
{
    if i < 0 || i >= args.len() {
        best
    } else if args[i] is Null {
        extreme_from(args, want, i + 1, best)
    } else if best is Null || value_order(best, args[i]) != Some(want) {
        extreme_from(args, want, i + 1, args[i])
    } else {
        extreme_from(args, want, i + 1, best)
    }
}

fn extreme(args: &[Value], want: Order) -> (r: Value)
    ensures
        r@ == extreme_from(row_view(args@), want, 0, ValueV::Null),
{
    let ghost av = row_view(args@);
    let mut best = Value::Null;
    let mut i: usize = 0;
    while i < args.len()
        invariant
            i <= args.len(),
            av == row_view(args@),
            extreme_from(av, want, i as int, best@) == extreme_from(av, want, 0, ValueV::Null),
        decreases args.len() - i,
    {
        assert(av[i as int] == args@[i as int]@);
        if !args[i].is_null() {
            let replace = if best.is_null() {
                true
            } else {
                match best.compare(&args[i]) {
                    Some(o) => o != want,
                    None => true,
                }
            };
            if replace {
                best = args[i].clone();
            }
        }
        i += 1;
    }
    best
}

/// The texts of the known arguments from `i` on, behind `acc`.
pub open spec fn joined_from(t: RealsV, args: RowV, i: int, acc: Seq<char>) -> Result<
    Seq<char>,
    StopV,
>
    decreases args.len() - i,
{
    if i < 0 || i >= args.len() {
        Ok(acc)
    } else if args[i] is Null {
        joined_from(t, args, i + 1, acc)
    } else {
        match text_form(t, args[i]) {
            Ok(s) => joined_from(t, args, i + 1, acc + s),
            Err(e) => Err(e),
        }
    }
}

fn join_known(reals: &Reals, args: &[Value]) -> (r: Result<Vec<char>, Stop>)
    ensures
        text_result(r) == joined_from(reals@, row_view(args@), 0, Seq::empty()),
{
    let ghost av = row_view(args@);
    let mut out: Vec<char> = Vec::new();
    let mut i: usize = 0;
    assert(out@ =~= Seq::<char>::empty());
    while i < args.len()
        invariant
            i <= args.len(),
            av == row_view(args@),
            joined_from(reals@, av, i as int, out@) == joined_from(reals@, av, 0, Seq::empty()),
        decreases args.len() - i,
    {
        assert(av[i as int] == args@[i as int]@);
        if !args[i].is_null() {
            match args[i].text_of(reals) {
                Ok(mut s) => {
                    out.append(&mut s);
                },
                Err(e) => {
                    return Err(e);
                },
            }
        }
        i += 1;
    }
    Ok(out)
}

pub fn text_of_chars(s: &[char]) -> (v: Value)
    ensures
        v@ == ValueV::Text(s@),
{
    Value::Text(from_chars(s))
}

// ---- JSON --------------------------------------------------------------------------------

/// A value as a JSON fragment.
pub open spec fn value_json(t: RealsV, v: ValueV) -> Result<Seq<char>, StopV> {
    match v {
        ValueV::Null => Ok("null"@),
        ValueV::Int(i) => Ok(int_text(i as int)),
        ValueV::Real(b) => if real_finite(b) {
            crate::asks::shown(t, AskV::Show(b))
        } else {
            Ok("null"@)
        },
        ValueV::Text(s) => Ok(json_quoted(s)),
        ValueV::Blob(b) => Ok(json_quoted(crate::base64::base64_text(b))),
        ValueV::Vector(x) => match shown_from(t, x, 0, seq!['[']) {
            Ok(s) => Ok(s.push(']')),
            Err(e) => Err(e),
        },
    }
}

/// The shortest decimal texts of components from `i` on, behind `acc`.
pub open spec fn shown_from(t: RealsV, v: Seq<u32>, i: int, acc: Seq<char>) -> Result<
    Seq<char>,
    StopV,
>
    decreases v.len() - i,
{
    if i < 0 || i >= v.len() {
        Ok(acc)
    } else {
        match crate::asks::shown(t, AskV::Show32(v[i])) {
            Ok(s) => shown_from(
                t,
                v,
                i + 1,
                (if i > 0 {
                    acc.push(',')
                } else {
                    acc
                }) + s,
            ),
            Err(e) => Err(e),
        }
    }
}

/// A value as a JSON fragment; a text is quoted even if it holds JSON.
pub fn value_to_json(reals: &Reals, v: &Value) -> (r: Result<Vec<char>, Stop>)
    ensures
        text_result(r) == value_json(reals@, v@),
{
    match v {
        Value::Null => Ok(to_chars("null")),
        Value::Int(i) => Ok(int_chars(*i)),
        Value::Real(b) => if mag_bits(*b) < INF_BITS {
            match reals.show(Ask::Show(*b)) {
                Ok(s) => Ok(to_chars(&s)),
                Err(e) => Err(e),
            }
        } else {
            Ok(to_chars("null"))
        },
        Value::Text(s) => {
            let cs = to_chars(s);
            Ok(json_quote(&cs))
        },
        Value::Blob(b) => {
            let s = crate::base64::base64_encode(b);
            let cs = to_chars(&s);
            Ok(json_quote(&cs))
        },
        Value::Vector(x) => {
            let mut out: Vec<char> = Vec::new();
            out.push('[');
            assert(out@ =~= seq!['[']);
            let mut i: usize = 0;
            while i < x.len()
                invariant
                    i <= x.len(),
                    v@ == ValueV::Vector(x@),
                    shown_from(reals@, x@, i as int, out@) == shown_from(
                        reals@,
                        x@,
                        0,
                        seq!['['],
                    ),
                decreases x.len() - i,
            {
                match reals.show(Ask::Show32(x[i])) {
                    Ok(s) => {
                        if i > 0 {
                            out.push(',');
                        }
                        let mut cs = to_chars(&s);
                        out.append(&mut cs);
                    },
                    Err(e) => {
                        return Err(e);
                    },
                }
                i += 1;
            }
            out.push(']');
            Ok(out)
        },
    }
}

/// The JSON fragments of arguments from `i` on, comma-separated, behind `acc`.
pub open spec fn json_list_from(t: RealsV, args: RowV, i: int, acc: Seq<char>) -> Result<
    Seq<char>,
    StopV,
>
    decreases args.len() - i,
{
    if i < 0 || i >= args.len() {
        Ok(acc)
    } else {
        match value_json(t, args[i]) {
            Ok(s) => json_list_from(
                t,
                args,
                i + 1,
                (if i > 0 {
                    acc.push(',')
                } else {
                    acc
                }) + s,
            ),
            Err(e) => Err(e),
        }
    }
}

/// A row as a JSON array.
pub open spec fn json_list(t: RealsV, args: RowV) -> Result<Seq<char>, StopV> {
    match json_list_from(t, args, 0, seq!['[']) {
        Ok(s) => Ok(s.push(']')),
        Err(e) => Err(e),
    }
}

pub fn json_array(reals: &Reals, args: &[Value]) -> (r: Result<Vec<char>, Stop>)
    ensures
        text_result(r) == json_list(reals@, row_view(args@)),
{
    let ghost av = row_view(args@);
    let mut out: Vec<char> = Vec::new();
    out.push('[');
    assert(out@ =~= seq!['[']);
    let mut i: usize = 0;
    while i < args.len()
        invariant
            i <= args.len(),
            av == row_view(args@),
            json_list_from(reals@, av, i as int, out@) == json_list_from(
                reals@,
                av,
                0,
                seq!['['],
            ),
        decreases args.len() - i,
    {
        assert(av[i as int] == args@[i as int]@);
        match value_to_json(reals, &args[i]) {
            Ok(mut s) => {
                if i > 0 {
                    out.push(',');
                }
                out.append(&mut s);
            },
            Err(e) => {
                return Err(e);
            },
        }
        i += 1;
    }
    out.push(']');
    Ok(out)
}

/// Key and value pairs of arguments from `i` on, behind `acc`.
pub open spec fn json_pairs_from(t: RealsV, args: RowV, i: int, acc: Seq<char>) -> Result<
    Seq<char>,
    StopV,
>
    decreases args.len() - i,
{
    if i < 0 || i + 1 >= args.len() {
        Ok(acc)
    } else {
        match text_form(t, args[i]) {
            Ok(k) => match value_json(t, args[i + 1]) {
                Ok(v) => json_pairs_from(
                    t,
                    args,
                    i + 2,
                    ((if i > 0 {
                        acc.push(',')
                    } else {
                        acc
                    }) + json_quoted(k)).push(':') + v,
                ),
                Err(e) => Err(e),
            },
            Err(e) => Err(e),
        }
    }
}

/// `json_build_object`.
pub open spec fn json_object_of(t: RealsV, args: RowV) -> Out {
    if args.len() % 2 != 0 {
        Err(sql_fail("json_build_object requires an even number of arguments"@))
    } else {
        match json_pairs_from(t, args, 0, seq!['{']) {
            Ok(s) => Ok(ValueV::Text(s.push('}'))),
            Err(e) => Err(e),
        }
    }
}

fn json_build_object(reals: &Reals, args: &[Value]) -> (r: Result<Value, Stop>)
    ensures
        value_result(r) == json_object_of(reals@, row_view(args@)),
{
    let ghost av = row_view(args@);
    if args.len() % 2 != 0 {
        return Err(
            sql_stop(owned("json_build_object requires an even number of arguments")),
        );
    }
    let mut out: Vec<char> = Vec::new();
    out.push('{');
    assert(out@ =~= seq!['{']);
    let mut i: usize = 0;
    while i < args.len()
        invariant
            i <= args.len(),
            i % 2 == 0,
            args.len() % 2 == 0,
            av == row_view(args@),
            json_pairs_from(reals@, av, i as int, out@) == json_pairs_from(
                reals@,
                av,
                0,
                seq!['{'],
            ),
        decreases args.len() - i,
    {
        assert(i + 1 < args.len());
        assert(av[i as int] == args@[i as int]@ && av[i + 1] == args@[i + 1]@);
        let ghost before = out@;
        match args[i].text_of(reals) {
            Ok(k) => {
                match value_to_json(reals, &args[i + 1]) {
                    Ok(mut v) => {
                        if i > 0 {
                            out.push(',');
                        }
                        push_quoted(&mut out, &k);
                        out.push(':');
                        out.append(&mut v);
                    },
                    Err(e) => {
                        return Err(e);
                    },
                }
            },
            Err(e) => {
                return Err(e);
            },
        }
        i += 2;
    }
    out.push('}');
    Ok(text_of_chars(&out))
}

/// The sub-value that a key selects: an integer an array element, anything else
/// an object member.
pub open spec fn json_sub(t: RealsV, j: JsonV, key: ValueV) -> Result<Option<JsonV>, StopV> {
    match key {
        ValueV::Int(i) => Ok(element(j, i as int)),
        _ => match text_form(t, key) {
            Ok(k) => Ok(member(j, k)),
            Err(e) => Err(e),
        },
    }
}

/// `json -> key` and `json ->> key`.
pub open spec fn json_got(t: RealsV, doc: ValueV, key: ValueV, as_text: bool) -> Out {
    if doc is Null || key is Null {
        Ok(ValueV::Null)
    } else {
        match text_form(t, doc) {
            Ok(s) => match document(s) {
                Some(j) => match json_sub(t, j, key) {
                    Ok(Some(x)) => if as_text {
                        match plain_text(t, x) {
                            Ok(Some(s)) => Ok(ValueV::Text(s)),
                            Ok(None) => Ok(ValueV::Null),
                            Err(e) => Err(e),
                        }
                    } else {
                        match json_text(t, x, Seq::empty()) {
                            Ok(s) => Ok(ValueV::Text(s)),
                            Err(e) => Err(e),
                        }
                    },
                    Ok(None) => Ok(ValueV::Null),
                    Err(e) => Err(e),
                },
                None => Ok(ValueV::Null),
            },
            Err(e) => Err(e),
        }
    }
}

fn json_get(reals: &Reals, doc: &Value, key: &Value, as_text: bool) -> (r: Result<Value, Stop>)
    ensures
        value_result(r) == json_got(reals@, doc@, key@, as_text),
{
    if doc.is_null() || key.is_null() {
        return Ok(Value::Null);
    }
    let s = match doc.text_of(reals) {
        Ok(s) => s,
        Err(e) => {
            return Err(e);
        },
    };
    let text = from_chars(&s);
    let parsed = match Json::parse(&text) {
        Some(j) => j,
        None => {
            return Ok(Value::Null);
        },
    };
    let sub: Option<&Json> = match key {
        Value::Int(i) => parsed.get_index(*i),
        _ => match key.text_of(reals) {
            Ok(k) => {
                let ks = from_chars(&k);
                parsed.get_key(&ks)
            },
            Err(e) => {
                return Err(e);
            },
        },
    };
    match sub {
        None => Ok(Value::Null),
        Some(j) => if as_text {
            match j.as_text(reals) {
                Ok(Some(t)) => Ok(text_of_chars(&t)),
                Ok(None) => Ok(Value::Null),
                Err(e) => Err(e),
            }
        } else {
            match j.to_json_text(reals) {
                Ok(t) => Ok(text_of_chars(&t)),
                Err(e) => Err(e),
            }
        },
    }
}

/// A JSON number as a value: an integer where it is integral and below `1e15`.
pub open spec fn json_number_value(t: RealsV, s: Seq<char>) -> Out {
    match number_of(t, s) {
        Ok(Some(b)) => if real_integral(b) && real_mag(b) < BIG_BITS {
            Ok(ValueV::Int(real_to_int(b)))
        } else {
            Ok(ValueV::Real(b))
        },
        Ok(None) => Ok(ValueV::Null),
        Err(e) => Err(e),
    }
}

/// `json_extract(json, path)`.
pub open spec fn json_extracted(t: RealsV, doc: ValueV, path: ValueV) -> Out {
    if doc is Null || path is Null {
        Ok(ValueV::Null)
    } else {
        match (text_form(t, doc), text_form(t, path)) {
            (Ok(s), Ok(p)) => match document(s) {
                Some(j) => match value_at_path(j, p) {
                    None | Some(JsonV::Null) => Ok(ValueV::Null),
                    Some(JsonV::Bool(b)) => Ok(ValueV::Int(bool_int(b))),
                    Some(JsonV::Num(n)) => json_number_value(t, n),
                    Some(JsonV::Str(x)) => Ok(ValueV::Text(x)),
                    Some(other) => match json_text(t, other, Seq::empty()) {
                        Ok(x) => Ok(ValueV::Text(x)),
                        Err(e) => Err(e),
                    },
                },
                None => Ok(ValueV::Null),
            },
            (Err(e), _) => Err(e),
            (_, Err(e)) => Err(e),
        }
    }
}

fn json_extract_func(reals: &Reals, doc: &Value, path: &Value) -> (r: Result<Value, Stop>)
    ensures
        value_result(r) == json_extracted(reals@, doc@, path@),
{
    if doc.is_null() || path.is_null() {
        return Ok(Value::Null);
    }
    let s = match doc.text_of(reals) {
        Ok(s) => s,
        Err(e) => {
            return Err(e);
        },
    };
    let p = match path.text_of(reals) {
        Ok(p) => p,
        Err(e) => {
            return Err(e);
        },
    };
    let text = from_chars(&s);
    let parsed = match Json::parse(&text) {
        Some(j) => j,
        None => {
            return Ok(Value::Null);
        },
    };
    let pt = from_chars(&p);
    match parsed.extract_path(&pt) {
        None => Ok(Value::Null),
        Some(j) => match j {
            Json::Null => Ok(Value::Null),
            Json::Bool(b) => Ok(Value::Int(crate::text::int_of_bool(*b))),
            Json::Num(n) => {
                let cs = to_chars(n);
                match reals.number(&cs) {
                    Ok(Some(b)) => if is_integral(b) && mag_bits(b) < BIG_BITS {
                        Ok(Value::Int(to_int(b)))
                    } else {
                        Ok(Value::Real(b))
                    },
                    Ok(None) => Ok(Value::Null),
                    Err(e) => Err(e),
                }
            },
            Json::Str(t) => Ok(Value::Text(t.clone())),
            _ => match j.to_json_text(reals) {
                Ok(t) => Ok(text_of_chars(&t)),
                Err(e) => Err(e),
            },
        },
    }
}

// ---- numbers -----------------------------------------------------------------------------

/// Wrapping magnitude: the smallest integer is its own.
pub open spec fn wrapped_abs(i: i64) -> i64 {
    if i == i64::MIN {
        i
    } else if i < 0 {
        (-i) as i64
    } else {
        i
    }
}

pub open spec fn abs_of(v: ValueV) -> Out {
    match v {
        ValueV::Int(i) => Ok(ValueV::Int(wrapped_abs(i))),
        ValueV::Real(b) => Ok(ValueV::Real(real_mag(b) as u64)),
        ValueV::Null => Ok(ValueV::Null),
        other => Err(sql_fail("abs() of "@ + class_name(other))),
    }
}

fn abs_func(v: &Value) -> (r: Result<Value, Stop>)
    ensures
        value_result(r) == abs_of(v@),
{
    match v {
        Value::Int(i) => Ok(
            Value::Int(
                if *i == i64::MIN {
                    *i
                } else if *i < 0 {
                    0 - *i
                } else {
                    *i
                },
            ),
        ),
        Value::Real(b) => Ok(Value::Real(mag_bits(*b))),
        Value::Null => Ok(Value::Null),
        other => Err(sql_stop(concat2("abs() of ", other.class_name()))),
    }
}

pub open spec fn clamp_i32(n: i64) -> i64 {
    if n > 2147483647 {
        2147483647
    } else if n < -2147483648 {
        -2147483648i64
    } else {
        n
    }
}

/// `round(x)` to the nearest integer, `round(x, n)` to `n` decimal places.
pub open spec fn rounded(t: RealsV, args: RowV) -> Out {
    match arg(args, 0) {
        ValueV::Null => Ok(ValueV::Null),
        ValueV::Int(i) => if args.len() < 2 {
            Ok(ValueV::Int(i))
        } else {
            rounded_real(t, real_of_int(i), arg(args, 1))
        },
        ValueV::Real(b) => rounded_real(t, b, arg(args, 1)),
        other => Err(sql_fail("round() of "@ + class_name(other))),
    }
}

pub open spec fn rounded_real(t: RealsV, x: u64, places: ValueV) -> Out {
    match as_number(t, places) {
        Ok(Some(n)) => match bits_of(t, AskV::Places(x, clamp_i32(real_to_int(n)))) {
            Ok(b) => Ok(ValueV::Real(b)),
            Err(e) => Err(e),
        },
        Ok(None) => Ok(ValueV::Int(real_round_int(x))),
        Err(e) => Err(e),
    }
}

fn round_at(reals: &Reals, x: u64, places: &Value) -> (r: Result<Value, Stop>)
    ensures
        value_result(r) == rounded_real(reals@, x, places@),
{
    match number_value(reals, places) {
        Ok(Some(n)) => {
            let k: i64 = to_int(n);
            let c: i64 = if k > 2147483647 {
                2147483647
            } else if k < -2147483648 {
                -2147483648
            } else {
                k
            };
            match reals.bits(Ask::Places(x, c)) {
                Ok(b) => Ok(Value::Real(b)),
                Err(e) => Err(e),
            }
        },
        Ok(None) => Ok(Value::Int(round_to_int(x))),
        Err(e) => Err(e),
    }
}

fn round_func(reals: &Reals, args: &[Value]) -> (r: Result<Value, Stop>)
    ensures
        value_result(r) == rounded(reals@, row_view(args@)),
{
    let x = arg_at(args, 0);
    let places = arg_at(args, 1);
    match &x {
        Value::Null => Ok(Value::Null),
        Value::Int(i) => if args.len() < 2 {
            Ok(Value::Int(*i))
        } else {
            round_at(reals, int_to_real(*i), &places)
        },
        Value::Real(b) => round_at(reals, *b, &places),
        other => Err(sql_stop(concat2("round() of ", other.class_name()))),
    }
}

/// What a one-argument real function computes.
pub enum RealFn {
    Rounded(Rounding),
    Asked(Unary),
}

pub open spec fn real_fn(t: RealsV, f: RealFn, b: u64) -> Result<u64, StopV> {
    match f {
        RealFn::Rounded(how) => Ok(real_rounded(how, b)),
        RealFn::Asked(u) => bits_of(t, AskV::Apply1(u, b)),
    }
}

/// A one-argument real function: `NULL` stays, other classes are an error.
pub open spec fn unary_of(t: RealsV, v: ValueV, name: Seq<char>, f: RealFn) -> Out {
    let x = match v {
        ValueV::Int(i) => Some(real_of_int(i)),
        ValueV::Real(b) => Some(b),
        _ => None,
    };
    match x {
        Some(b) => match real_fn(t, f, b) {
            Ok(y) => Ok(ValueV::Real(y)),
            Err(e) => Err(e),
        },
        None => if v is Null {
            Ok(ValueV::Null)
        } else {
            Err(sql_fail(name + "() of "@ + class_name(v)))
        },
    }
}

fn unary_real(reals: &Reals, v: &Value, name: &str, f: RealFn) -> (r: Result<Value, Stop>)
    ensures
        value_result(r) == unary_of(reals@, v@, name@, f),
{
    let x: u64 = match v {
        Value::Int(i) => int_to_real(*i),
        Value::Real(b) => *b,
        Value::Null => {
            return Ok(Value::Null);
        },
        other => {
            return Err(sql_stop(concat3(name, "() of ", other.class_name())));
        },
    };
    match f {
        RealFn::Rounded(how) => Ok(Value::Real(round_real(how, x))),
        RealFn::Asked(u) => match reals.bits(Ask::Apply1(u, x)) {
            Ok(b) => Ok(Value::Real(b)),
            Err(e) => Err(e),
        },
    }
}

pub open spec fn sign_of(b: u64) -> i64 {
    match real_order(b, 0) {
        Some(Order::Less) => -1i64,
        Some(Order::Greater) => 1,
        _ => 0,
    }
}

/// The quotient towards zero.
pub open spec fn quotient(a: int, b: int) -> int {
    let x = if a < 0 {
        -a
    } else {
        a
    };
    let y = if b < 0 {
        -b
    } else {
        b
    };
    if (a < 0) != (b < 0) {
        -(x / y)
    } else {
        x / y
    }
}

/// The remainder of the quotient towards zero: it has the sign of `a`.
pub open spec fn remainder(a: int, b: int) -> int {
    let x = if a < 0 {
        -a
    } else {
        a
    };
    let y = if b < 0 {
        -b
    } else {
        b
    };
    if a < 0 {
        -(x % y)
    } else {
        x % y
    }
}

/// Quotient and remainder agree: `a == b * quotient + remainder`.
pub proof fn law_quotient_remainder(a: int, b: int)
    requires
        b != 0,
    ensures
        a == b * quotient(a, b) + remainder(a, b),
{
    let x = if a < 0 {
        -a
    } else {
        a
    };
    let y = if b < 0 {
        -b
    } else {
        b
    };
    vstd::arithmetic::div_mod::lemma_fundamental_div_mod(x, y);
    let q = x / y;
    assert(y * q == (-y) * (-q)) by (nonlinear_arith);
    assert(-(y * q) == (-y) * q) by (nonlinear_arith);
    assert(-(y * q) == y * (-q)) by (nonlinear_arith);
}

/// Integer division towards zero; the divisor is not zero, and the one quotient
/// that does not fit gives none.
pub fn divide(a: i64, b: i64) -> (r: Option<i64>)
    requires
        b != 0,
    ensures
        match r {
            Some(q) => q == quotient(a as int, b as int),
            None => quotient(a as int, b as int) > i64::MAX,
        },
{
    let x = crate::text::magnitude(a);
    let y = crate::text::magnitude(b);
    let q: u64 = x / y;
    proof {
        assert(q <= x) by (nonlinear_arith)
            requires
                q == x / y,
                y >= 1,
        ;
    }
    if (a < 0) != (b < 0) {
        if q == 9_223_372_036_854_775_808 {
            Some(i64::MIN)
        } else {
            Some(0 - (q as i64))
        }
    } else if q > 9_223_372_036_854_775_807 {
        None
    } else {
        Some(q as i64)
    }
}

/// The remainder of integer division towards zero.
pub fn modulo(a: i64, b: i64) -> (r: i64)
    requires
        b != 0,
    ensures
        r == remainder(a as int, b as int),
{
    let x = crate::text::magnitude(a);
    let y = crate::text::magnitude(b);
    let m: u64 = x % y;
    if a < 0 {
        0 - (m as i64)
    } else {
        m as i64
    }
}

/// `mod(a, b)` on integers parts; a zero divisor gives `NULL`, one that only
/// truncates to zero is an error.
pub open spec fn mod_of(a: u64, b: u64) -> Out {
    if real_mag(b) == 0 {
        Ok(ValueV::Null)
    } else if real_to_int(b) == 0 {
        Err(sql_fail("division by zero"@))
    } else {
        Ok(ValueV::Int(remainder(real_to_int(a) as int, real_to_int(b) as int) as i64))
    }
}

fn mod_func(a: u64, b: u64) -> (r: Result<Value, Stop>)
    ensures
        value_result(r) == mod_of(a, b),
{
    if mag_bits(b) == 0 {
        return Ok(Value::Null);
    }
    let y = to_int(b);
    if y == 0 {
        return Err(sql_stop(owned("division by zero")));
    }
    let m = modulo(to_int(a), y);
    Ok(Value::Int(m))
}

/// A fraction in `[0, 1)` from a random draw: its upper 53 bits over `2^53`.
pub open spec fn unit_fraction(draw: u64) -> u64 {
    let n = draw as nat / 2048;
    if n == 0 {
        0
    } else {
        (real_of_nat(n) - 53 * 0x10_0000_0000_0000) as u64
    }
}

fn fraction_of(draw: u64) -> (r: u64)
    ensures
        r == unit_fraction(draw),
{
    let n: u64 = draw / 2048;
    if n == 0 {
        0
    } else {
        let b = nat_to_real(n);
        proof {
            crate::ieee::lemma_real_of_nat_large(n as nat);
        }
        b - 53 * 0x10_0000_0000_0000
    }
}

// ---- dates -------------------------------------------------------------------------------

/// The epoch seconds of a date text, where they fit.
pub open spec fn epoch_in_range(s: Seq<char>) -> Option<i64> {
    match epoch_of_text(s) {
        Some(n) => if i64::MIN <= n <= i64::MAX {
            Some(n as i64)
        } else {
            None
        },
        None => None,
    }
}

/// A value as epoch seconds: a number, `'now'`, a date text or a decimal text.
pub open spec fn epoch_value(now: i64, v: ValueV) -> Option<i64> {
    match v {
        ValueV::Int(i) => Some(i),
        ValueV::Real(b) => Some(real_to_int(b)),
        ValueV::Text(s) => {
            let t = trimmed(s);
            if same_name(t, "now"@) {
                Some(now)
            } else {
                match epoch_in_range(t) {
                    Some(e) => Some(e),
                    None => i64_of_text(t),
                }
            }
        },
        _ => None,
    }
}

fn value_to_epoch(now: i64, v: &Value) -> (r: Option<i64>)
    ensures
        r == epoch_value(now, v@),
{
    match v {
        Value::Int(i) => Some(*i),
        Value::Real(b) => Some(to_int(*b)),
        Value::Text(s) => {
            let cs = to_chars(s);
            let t = trim_chars(&cs);
            let ts = from_chars(&t);
            if names_match(&ts, "now") {
                Some(now)
            } else {
                match parse_epoch_secs(&ts) {
                    Some(e) => Some(e),
                    None => parse_i64(&t),
                }
            }
        },
        _ => None,
    }
}

/// The start of a unit as text; an unknown unit is an error.
pub open spec fn truncated_text(unit: Seq<char>, e: i64) -> Out {
    match unit_named(lower_text(unit)) {
        Some(u) => if unit_start(u, e as int) >= i64::MIN {
            Ok(ValueV::Text(timestamp_text(unit_start(u, e as int))))
        } else {
            Err(sql_fail("unknown date_trunc unit: "@ + unit))
        },
        None => Err(sql_fail("unknown date_trunc unit: "@ + unit)),
    }
}

fn trunc_text(unit: &[char], e: i64) -> (r: Result<Value, Stop>)
    ensures
        value_result(r) == truncated_text(unit@, e),
{
    let name = from_chars(unit);
    match date_trunc(&name, e) {
        Some(t) => {
            let v = Value::Text(format_timestamp(t));
            proof {
                let u = unit_named(lower_text(unit@))->0;
                crate::datetime::law_trunc(u, e as int);
            }
            Ok(v)
        },
        None => Err(sql_stop(concat2("unknown date_trunc unit: ", &name))),
    }
}

/// `date_trunc(unit, ts)`.
pub open spec fn truncated(env: EnvV, args: RowV) -> Out {
    match arg(args, 0) {
        ValueV::Null => Ok(ValueV::Null),
        v => match text_form(env.reals, v) {
            Ok(unit) => match epoch_value(env.now, arg(args, 1)) {
                Some(e) => truncated_text(unit, e),
                None => Ok(ValueV::Null),
            },
            Err(x) => Err(x),
        },
    }
}

fn date_trunc_func(env: &Env, args: &[Value]) -> (r: Result<Value, Stop>)
    ensures
        value_result(r) == truncated(env@, row_view(args@)),
{
    let first = arg_at(args, 0);
    if first.is_null() {
        return Ok(Value::Null);
    }
    let unit = match first.text_of(env.reals) {
        Ok(u) => u,
        Err(e) => {
            return Err(e);
        },
    };
    let second = arg_at(args, 1);
    let e = match value_to_epoch(env.now, &second) {
        Some(e) => e,
        None => {
            return Ok(Value::Null);
        },
    };
    trunc_text(&unit, e)
}

/// A field of a time by its (lower-cased) name.
pub open spec fn time_field(f: Seq<char>, e: int) -> Option<int> {
    let p = clock(e);
    if f == "year"@ {
        Some(p.0)
    } else if f == "month"@ {
        Some(p.1)
    } else if f == "day"@ {
        Some(p.2)
    } else if f == "hour"@ {
        Some(p.3)
    } else if f == "minute"@ {
        Some(p.4)
    } else if f == "second"@ {
        Some(p.5)
    } else if f == "dow"@ {
        Some(weekday(e))
    } else if f == "doy"@ {
        Some(yearday(e))
    } else if f == "quarter"@ {
        Some((p.1 - 1) / 3 + 1)
    } else if f == "epoch"@ {
        Some(e)
    } else {
        None
    }
}

/// `extract(field, ts)`; an unknown field gives `NULL`.
pub open spec fn extracted(env: EnvV, args: RowV) -> Out {
    match arg(args, 0) {
        ValueV::Null => Ok(ValueV::Null),
        v => match text_form(env.reals, v) {
            Ok(f) => match epoch_value(env.now, arg(args, 1)) {
                Some(e) => match time_field(lower_text(f), e as int) {
                    Some(n) => Ok(ValueV::Int(n as i64)),
                    None => Ok(ValueV::Null),
                },
                None => Ok(ValueV::Null),
            },
            Err(x) => Err(x),
        },
    }
}

fn field_of_time(f: &[char], e: i64) -> (r: Option<i64>)
    ensures
        match time_field(f@, e as int) {
            Some(n) => r == Some(n as i64) && i64::MIN <= n <= i64::MAX,
            None => r is None,
        },
{
    let p = parts(e);
    if spells(f, "year") {
        Some(p.0)
    } else if spells(f, "month") {
        Some(p.1)
    } else if spells(f, "day") {
        Some(p.2)
    } else if spells(f, "hour") {
        Some(p.3)
    } else if spells(f, "minute") {
        Some(p.4)
    } else if spells(f, "second") {
        Some(p.5)
    } else if spells(f, "dow") {
        Some(day_of_week(e))
    } else if spells(f, "doy") {
        Some(day_of_year(e))
    } else if spells(f, "quarter") {
        Some((p.1 - 1) / 3 + 1)
    } else if spells(f, "epoch") {
        Some(e)
    } else {
        None
    }
}

fn extract_func(env: &Env, args: &[Value]) -> (r: Result<Value, Stop>)
    ensures
        value_result(r) == extracted(env@, row_view(args@)),
{
    let first = arg_at(args, 0);
    if first.is_null() {
        return Ok(Value::Null);
    }
    let f = match first.text_of(env.reals) {
        Ok(f) => f,
        Err(e) => {
            return Err(e);
        },
    };
    let second = arg_at(args, 1);
    let e = match value_to_epoch(env.now, &second) {
        Some(e) => e,
        None => {
            return Ok(Value::Null);
        },
    };
    let fs = from_chars(&f);
    let name = lower_chars(&fs);
    match field_of_time(&name, e) {
        Some(n) => Ok(Value::Int(n)),
        None => Ok(Value::Null),
    }
}

/// What a conversion letter stands for; an unknown one stands for itself.
pub open spec fn conversion(c: char, e: int) -> Seq<char> {
    let p = clock(e);
    if c == 'Y' {
        padded_int(p.0, 4)
    } else if c == 'm' {
        padded_int(p.1, 2)
    } else if c == 'd' {
        padded_int(p.2, 2)
    } else if c == 'H' {
        padded_int(p.3, 2)
    } else if c == 'M' {
        padded_int(p.4, 2)
    } else if c == 'S' {
        padded_int(p.5, 2)
    } else if c == 's' {
        int_text(e)
    } else if c == 'j' {
        padded_int(yearday(e), 3)
    } else if c == 'w' {
        int_text(weekday(e))
    } else if c == '%' {
        seq!['%']
    } else {
        seq!['%', c]
    }
}

/// A format from `i` on filled in for a time, behind `acc`.
pub open spec fn filled_from(f: Seq<char>, e: int, i: int, acc: Seq<char>) -> Seq<char>
    decreases f.len() - i,
{
    if i < 0 || i >= f.len() {
        acc
    } else if f[i] != '%' {
        filled_from(f, e, i + 1, acc.push(f[i]))
    } else if i + 1 < f.len() {
        filled_from(f, e, i + 2, acc + conversion(f[i + 1], e))
    } else {
        acc.push('%')
    }
}

/// `strftime(format, ts)`.
pub open spec fn formatted(env: EnvV, args: RowV) -> Out {
    match arg(args, 0) {
        ValueV::Null => Ok(ValueV::Null),
        v => match text_form(env.reals, v) {
            Ok(f) => match epoch_value(env.now, arg(args, 1)) {
                Some(e) => Ok(ValueV::Text(filled_from(f, e as int, 0, Seq::empty()))),
                None => Ok(ValueV::Null),
            },
            Err(x) => Err(x),
        },
    }
}

fn push_conversion(out: &mut Vec<char>, c: char, e: i64)
    ensures
        final(out)@ == old(out)@ + conversion(c, e as int),
{
    let p = parts(e);
    if c == 'Y' {
        push_padded(out, p.0, 4);
    } else if c == 'm' {
        push_padded(out, p.1, 2);
    } else if c == 'd' {
        push_padded(out, p.2, 2);
    } else if c == 'H' {
        push_padded(out, p.3, 2);
    } else if c == 'M' {
        push_padded(out, p.4, 2);
    } else if c == 'S' {
        push_padded(out, p.5, 2);
    } else if c == 's' {
        let mut t = int_chars(e);
        out.append(&mut t);
    } else if c == 'j' {
        push_padded(out, day_of_year(e), 3);
    } else if c == 'w' {
        let mut t = int_chars(day_of_week(e));
        out.append(&mut t);
    } else if c == '%' {
        out.push('%');
    } else {
        out.push('%');
        out.push(c);
    }
    assert(out@ =~= old(out)@ + conversion(c, e as int));
}

fn strftime_func(env: &Env, args: &[Value]) -> (r: Result<Value, Stop>)
    ensures
        value_result(r) == formatted(env@, row_view(args@)),
{
    let first = arg_at(args, 0);
    if first.is_null() {
        return Ok(Value::Null);
    }
    let f = match first.text_of(env.reals) {
        Ok(f) => f,
        Err(e) => {
            return Err(e);
        },
    };
    let second = arg_at(args, 1);
    let e = match value_to_epoch(env.now, &second) {
        Some(e) => e,
        None => {
            return Ok(Value::Null);
        },
    };
    let mut out: Vec<char> = Vec::new();
    assert(out@ =~= Seq::<char>::empty());
    let mut i: usize = 0;
    while i < f.len()
        invariant
            i <= f.len(),
            filled_from(f@, e as int, i as int, out@) == filled_from(f@, e as int, 0, Seq::empty()),
        decreases f.len() - i,
    {
        let c = f[i];
        if c != '%' {
            out.push(c);
            i += 1;
        } else if i + 1 < f.len() {
            push_conversion(&mut out, f[i + 1], e);
            i += 2;
        } else {
            out.push('%');
            i += 1;
            assert(filled_from(f@, e as int, i as int, out@) == out@);
        }
    }
    Ok(text_of_chars(&out))
}

// ---- strings -----------------------------------------------------------------------------

pub open spec fn clamp(n: int, lo: int, hi: int) -> int {
    if n < lo {
        lo
    } else if n > hi {
        hi
    } else {
        n
    }
}

/// `substr(s, start [, len])`: counted from one, a negative start from the end.
pub open spec fn substring(s: Seq<char>, start: int, len: Option<int>) -> Seq<char> {
    let n = s.len() as int;
    let first = if start < 0 {
        n + start
    } else {
        start - 1
    };
    let begin = clamp(first, 0, n);
    let end = match len {
        Some(k) => clamp(first + k, 0, n),
        None => n,
    };
    if end > begin {
        s.subrange(begin, end)
    } else {
        Seq::empty()
    }
}

pub open spec fn substr_of(t: RealsV, args: RowV) -> Out {
    match arg(args, 0) {
        ValueV::Null => Ok(ValueV::Null),
        v => match text_form(t, v) {
            Ok(s) => match as_number(t, arg(args, 1)) {
                Ok(Some(b)) => {
                    let start = real_to_int(b) as int;
                    if args.len() > 2 {
                        if args[2] is Null {
                            Ok(ValueV::Null)
                        } else {
                            match as_number(t, args[2]) {
                                Ok(Some(k)) => Ok(
                                    ValueV::Text(substring(s, start, Some(real_to_int(k) as int))),
                                ),
                                Ok(None) => Ok(ValueV::Text(substring(s, start, Some(0)))),
                                Err(e) => Err(e),
                            }
                        }
                    } else {
                        Ok(ValueV::Text(substring(s, start, None)))
                    }
                },
                Ok(None) => Ok(ValueV::Null),
                Err(e) => Err(e),
            },
            Err(e) => Err(e),
        },
    }
}

fn clamp_index(n: i128, hi: usize) -> (r: usize)
    ensures
        r == clamp(n as int, 0, hi as int),
        r <= hi,
{
    if n < 0 {
        0
    } else if n > hi as i128 {
        hi
    } else {
        n as usize
    }
}

fn cut(s: &[char], start: i64, len: Option<i64>) -> (r: Vec<char>)
    ensures
        r@ == substring(
            s@,
            start as int,
            match len {
                Some(k) => Some(k as int),
                None => None,
            },
        ),
{
    let n: i128 = s.len() as i128;
    let first: i128 = if start < 0 {
        n + start as i128
    } else {
        start as i128 - 1
    };
    let begin = clamp_index(first, s.len());
    let end: usize = match len {
        Some(k) => clamp_index(first + k as i128, s.len()),
        None => s.len(),
    };
    if end > begin {
        slice_chars(s, begin, end)
    } else {
        let v: Vec<char> = Vec::new();
        assert(v@ =~= Seq::<char>::empty());
        v
    }
}

fn substr_func(reals: &Reals, args: &[Value]) -> (r: Result<Value, Stop>)
    ensures
        value_result(r) == substr_of(reals@, row_view(args@)),
{
    let first = arg_at(args, 0);
    if first.is_null() {
        return Ok(Value::Null);
    }
    let s = match first.text_of(reals) {
        Ok(s) => s,
        Err(e) => {
            return Err(e);
        },
    };
    let start = match number_arg(reals, args, 1) {
        Ok(Some(b)) => to_int(b),
        Ok(None) => {
            return Ok(Value::Null);
        },
        Err(e) => {
            return Err(e);
        },
    };
    if args.len() > 2 {
        assert(row_view(args@)[2] == args@[2]@);
        if args[2].is_null() {
            return Ok(Value::Null);
        }
        let k: i64 = match number_value(reals, &args[2]) {
            Ok(Some(b)) => to_int(b),
            Ok(None) => 0,
            Err(e) => {
                return Err(e);
            },
        };
        let c = cut(&s, start, Some(k));
        Ok(text_of_chars(&c))
    } else {
        let c = cut(&s, start, None);
        Ok(text_of_chars(&c))
    }
}

/// `left(s, n)` and `right(s, n)`; a negative `n` drops from the far end.
pub open spec fn side(s: Seq<char>, k: int, left: bool) -> Seq<char> {
    let n = s.len() as int;
    let take = if k >= 0 {
        clamp(k, 0, n)
    } else {
        clamp(n + k, 0, n)
    };
    if left {
        s.take(take)
    } else {
        s.skip(n - take)
    }
}

pub open spec fn side_of(t: RealsV, args: RowV, left: bool) -> Out {
    match arg(args, 0) {
        ValueV::Null => Ok(ValueV::Null),
        v => match text_form(t, v) {
            Ok(s) => match as_number(t, arg(args, 1)) {
                Ok(Some(b)) => Ok(ValueV::Text(side(s, real_to_int(b) as int, left))),
                Ok(None) => Ok(ValueV::Null),
                Err(e) => Err(e),
            },
            Err(e) => Err(e),
        },
    }
}

fn side_func(reals: &Reals, args: &[Value], left: bool) -> (r: Result<Value, Stop>)
    ensures
        value_result(r) == side_of(reals@, row_view(args@), left),
{
    let first = arg_at(args, 0);
    if first.is_null() {
        return Ok(Value::Null);
    }
    let s = match first.text_of(reals) {
        Ok(s) => s,
        Err(e) => {
            return Err(e);
        },
    };
    match number_arg(reals, args, 1) {
        Ok(Some(b)) => {
            let k = to_int(b);
            let take = if k >= 0 {
                clamp_index(k as i128, s.len())
            } else {
                clamp_index(s.len() as i128 + k as i128, s.len())
            };
            let c = if left {
                slice_chars(&s, 0, take)
            } else {
                slice_chars(&s, s.len() - take, s.len())
            };
            assert(c@ =~= side(s@, k as int, left));
            Ok(text_of_chars(&c))
        },
        Ok(None) => Ok(Value::Null),
        Err(e) => Err(e),
    }
}

/// `lpad` and `rpad`.
pub open spec fn pad_of(t: RealsV, args: RowV, left: bool) -> Out {
    match arg(args, 0) {
        ValueV::Null => Ok(ValueV::Null),
        v => match text_form(t, v) {
            Ok(s) => match as_number(t, arg(args, 1)) {
                Ok(Some(b)) => {
                    let len = if real_to_int(b) > 0 {
                        real_to_int(b) as nat
                    } else {
                        0
                    };
                    match arg(args, 2) {
                        ValueV::Null => Ok(ValueV::Text(padded(s, len, seq![' '], left))),
                        f => match text_form(t, f) {
                            Ok(fill) => Ok(ValueV::Text(padded(s, len, fill, left))),
                            Err(e) => Err(e),
                        },
                    }
                },
                Ok(None) => Ok(ValueV::Null),
                Err(e) => Err(e),
            },
            Err(e) => Err(e),
        },
    }
}

fn pad_func(reals: &Reals, args: &[Value], left: bool) -> (r: Result<Value, Stop>)
    ensures
        value_result(r) == pad_of(reals@, row_view(args@), left),
{
    let first = arg_at(args, 0);
    if first.is_null() {
        return Ok(Value::Null);
    }
    let s = match first.text_of(reals) {
        Ok(s) => s,
        Err(e) => {
            return Err(e);
        },
    };
    match number_arg(reals, args, 1) {
        Ok(Some(b)) => {
            let k = to_int(b);
            let len: u64 = if k > 0 {
                k as u64
            } else {
                0
            };
            let third = arg_at(args, 2);
            let fill = if third.is_null() {
                let mut v: Vec<char> = Vec::new();
                v.push(' ');
                assert(v@ =~= seq![' ']);
                v
            } else {
                match third.text_of(reals) {
                    Ok(f) => f,
                    Err(e) => {
                        return Err(e);
                    },
                }
            };
            let c = pad_chars(&s, len, &fill, left);
            Ok(text_of_chars(&c))
        },
        Ok(None) => Ok(Value::Null),
        Err(e) => Err(e),
    }
}

/// Texts of two arguments, when both are known.
pub open spec fn texts2(t: RealsV, a: ValueV, b: ValueV) -> Result<Option<(Seq<char>, Seq<char>)>, StopV> {
    if a is Null || b is Null {
        Ok(None)
    } else {
        match text_form(t, a) {
            Ok(x) => match text_form(t, b) {
                Ok(y) => Ok(Some((x, y))),
                Err(e) => Err(e),
            },
            Err(e) => Err(e),
        }
    }
}

fn two_texts(reals: &Reals, a: &Value, b: &Value) -> (r: Result<
    Option<(Vec<char>, Vec<char>)>,
    Stop,
>)
    ensures
        match r {
            Ok(Some(p)) => texts2(reals@, a@, b@) == Ok::<Option<(Seq<char>, Seq<char>)>, StopV>(
                Some((p.0@, p.1@)),
            ),
            Ok(None) => texts2(reals@, a@, b@) == Ok::<Option<(Seq<char>, Seq<char>)>, StopV>(None),
            Err(e) => texts2(reals@, a@, b@) == Err::<Option<(Seq<char>, Seq<char>)>, StopV>(e@),
        },
{
    if a.is_null() || b.is_null() {
        return Ok(None);
    }
    match a.text_of(reals) {
        Ok(x) => match b.text_of(reals) {
            Ok(y) => Ok(Some((x, y))),
            Err(e) => Err(e),
        },
        Err(e) => Err(e),
    }
}

/// The place of `n` in `s` counted from one, zero when absent.
pub open spec fn place_of(s: Seq<char>, n: Seq<char>) -> int {
    match occurrence(s, n, 0) {
        Some(i) => i + 1,
        None => 0,
    }
}

pub open spec fn instr_of(t: RealsV, h: ValueV, n: ValueV) -> Out {
    match texts2(t, h, n) {
        Ok(Some((s, x))) => Ok(ValueV::Int(place_of(s, x) as i64)),
        Ok(None) => Ok(ValueV::Null),
        Err(e) => Err(e),
    }
}

fn instr_func(reals: &Reals, h: &Value, n: &Value) -> (r: Result<Value, Stop>)
    ensures
        value_result(r) == instr_of(reals@, h@, n@),
{
    match two_texts(reals, h, n) {
        Ok(Some(p)) => match find_occurrence(&p.0, &p.1) {
            Some(i) => Ok(Value::Int((i as i128 + 1) as i64)),
            None => Ok(Value::Int(0)),
        },
        Ok(None) => Ok(Value::Null),
        Err(e) => Err(e),
    }
}

pub open spec fn replace_of(t: RealsV, args: RowV) -> Out {
    if arg(args, 2) is Null {
        Ok(ValueV::Null)
    } else {
        match texts2(t, arg(args, 0), arg(args, 1)) {
            Ok(Some((s, f))) => match text_form(t, arg(args, 2)) {
                Ok(x) => Ok(ValueV::Text(replaced(s, f, x))),
                Err(e) => Err(e),
            },
            Ok(None) => Ok(ValueV::Null),
            Err(e) => Err(e),
        }
    }
}

fn replace_func(reals: &Reals, args: &[Value]) -> (r: Result<Value, Stop>)
    ensures
        value_result(r) == replace_of(reals@, row_view(args@)),
{
    let third = arg_at(args, 2);
    if third.is_null() {
        return Ok(Value::Null);
    }
    let a = arg_at(args, 0);
    let b = arg_at(args, 1);
    match two_texts(reals, &a, &b) {
        Ok(Some(p)) => match third.text_of(reals) {
            Ok(x) => {
                let c = replace_chars(&p.0, &p.1, &x);
                Ok(text_of_chars(&c))
            },
            Err(e) => Err(e),
        },
        Ok(None) => Ok(Value::Null),
        Err(e) => Err(e),
    }
}

/// `repeat(s, n)`.
pub open spec fn repeat_of(t: RealsV, args: RowV) -> Out {
    match as_number(t, arg(args, 1)) {
        Ok(Some(b)) => match arg(args, 0) {
            ValueV::Null => Ok(ValueV::Null),
            v => match text_form(t, v) {
                Ok(s) => Ok(
                    ValueV::Text(
                        copies(
                            s,
                            if real_to_int(b) > 0 {
                                real_to_int(b) as nat
                            } else {
                                0
                            },
                        ),
                    ),
                ),
                Err(e) => Err(e),
            },
        },
        Ok(None) => Ok(ValueV::Null),
        Err(e) => Err(e),
    }
}

fn repeat_func(reals: &Reals, args: &[Value]) -> (r: Result<Value, Stop>)
    ensures
        value_result(r) == repeat_of(reals@, row_view(args@)),
{
    match number_arg(reals, args, 1) {
        Ok(Some(b)) => {
            let first = arg_at(args, 0);
            if first.is_null() {
                return Ok(Value::Null);
            }
            match first.text_of(reals) {
                Ok(s) => {
                    let k = to_int(b);
                    let n: u64 = if k > 0 {
                        k as u64
                    } else {
                        0
                    };
                    let c = copy_chars(&s, n);
                    Ok(text_of_chars(&c))
                },
                Err(e) => Err(e),
            }
        },
        Ok(None) => Ok(Value::Null),
        Err(e) => Err(e),
    }
}

/// The functions from one text to another.
#[derive(Clone, Copy, Debug, PartialEq, Eq, Structural)]
pub enum TextFn {
    Lower,
    Upper,
    Trim,
    TrimLeft,
    TrimRight,
    Reverse,
}

pub open spec fn text_fn(f: TextFn, s: Seq<char>) -> Seq<char> {
    match f {
        TextFn::Lower => unicode_lower(s),
        TextFn::Upper => unicode_upper(s),
        TextFn::Trim => trimmed(s),
        TextFn::TrimLeft => trim_left(s),
        TextFn::TrimRight => trim_right(s),
        TextFn::Reverse => reversed(s),
    }
}

pub open spec fn map_text_of(t: RealsV, v: ValueV, f: TextFn) -> Out {
    if v is Null {
        Ok(ValueV::Null)
    } else {
        match text_form(t, v) {
            Ok(s) => Ok(ValueV::Text(text_fn(f, s))),
            Err(e) => Err(e),
        }
    }
}

fn map_text(reals: &Reals, v: &Value, f: TextFn) -> (r: Result<Value, Stop>)
    ensures
        value_result(r) == map_text_of(reals@, v@, f),
{
    if v.is_null() {
        return Ok(Value::Null);
    }
    match v.text_of(reals) {
        Ok(s) => {
            let c = match f {
                TextFn::Lower => lowercase(&s),
                TextFn::Upper => uppercase(&s),
                TextFn::Trim => trim_chars(&s),
                TextFn::TrimLeft => trim_left_chars(&s),
                TextFn::TrimRight => trim_right_chars(&s),
                TextFn::Reverse => reverse_chars(&s),
            };
            Ok(text_of_chars(&c))
        },
        Err(e) => Err(e),
    }
}

/// `hex(v)`: a blob's bytes, else the UTF-8 bytes of the text.
pub open spec fn hex_of_value(t: RealsV, v: ValueV) -> Out {
    match v {
        ValueV::Null => Ok(ValueV::Null),
        ValueV::Blob(b) => Ok(ValueV::Text(hex_text(b))),
        _ => match text_form(t, v) {
            Ok(s) => Ok(ValueV::Text(hex_text(vstd::utf8::encode_utf8(s)))),
            Err(e) => Err(e),
        },
    }
}

fn hex_func(reals: &Reals, v: &Value) -> (r: Result<Value, Stop>)
    ensures
        value_result(r) == hex_of_value(reals@, v@),
{
    match v {
        Value::Null => Ok(Value::Null),
        Value::Blob(b) => {
            let h = to_hex(b);
            Ok(text_of_chars(&h))
        },
        _ => match v.text_of(reals) {
            Ok(s) => {
                let t = from_chars(&s);
                let h = to_hex(t.as_str().as_bytes());
                Ok(text_of_chars(&h))
            },
            Err(e) => Err(e),
        },
    }
}

// ---- dispatch ------------------------------------------------------------------------------

/// The call site of a random function, which the parser puts in as an argument.
pub open spec fn call_site(args: RowV) -> i64 {
    match arg(args, 0) {
        ValueV::Int(i) => i,
        _ => 0,
    }
}

pub open spec fn uuid_of(env: EnvV, tick: u64, args: RowV) -> Out {
    match bits_of(env.reals, AskV::Draw(env.place, tick, call_site(args), 0)) {
        Ok(a) => match bits_of(env.reals, AskV::Draw(env.place, tick, call_site(args), 1)) {
            Ok(b) => Ok(ValueV::Text(uuid_text(a, b))),
            Err(e) => Err(e),
        },
        Err(e) => Err(e),
    }
}

pub open spec fn power_of(t: RealsV, args: RowV) -> Out {
    match as_number(t, arg(args, 0)) {
        Ok(x) => match as_number(t, arg(args, 1)) {
            Ok(y) => match (x, y) {
                (Some(a), Some(b)) => match bits_of(t, AskV::Apply2(Binary::Power, a, b)) {
                    Ok(r) => Ok(ValueV::Real(r)),
                    Err(e) => Err(e),
                },
                _ => Ok(ValueV::Null),
            },
            Err(e) => Err(e),
        },
        Err(e) => Err(e),
    }
}

pub open spec fn mod_call(t: RealsV, args: RowV) -> Out {
    match as_number(t, arg(args, 0)) {
        Ok(x) => match as_number(t, arg(args, 1)) {
            Ok(y) => match (x, y) {
                (Some(a), Some(b)) => mod_of(a, b),
                _ => Ok(ValueV::Null),
            },
            Err(e) => Err(e),
        },
        Err(e) => Err(e),
    }
}

pub open spec fn epoch_text(now: i64, v: ValueV, f: Func) -> Out {
    match epoch_value(now, v) {
        Some(e) => Ok(
            match f {
                Func::Date => ValueV::Text(date_text(e as int)),
                Func::Datetime => ValueV::Text(timestamp_text(e as int)),
                Func::Time => ValueV::Text(time_text(e as int)),
                _ => ValueV::Int(e),
            },
        ),
        None => Ok(ValueV::Null),
    }
}

/// A claim of the session's as a value: `NULL` where there is none.
pub open spec fn claim_value(env: EnvV, key: Seq<char>) -> Out {
    match claim_of(env.session, key, env.reals) {
        Ok(Some(s)) => Ok(ValueV::Text(s)),
        Ok(None) => Ok(ValueV::Null),
        Err(e) => Err(e),
    }
}

fn session_claim(env: &Env, key: &str) -> (r: Result<Value, Stop>)
    ensures
        value_result(r) == claim_value(env@, key@),
{
    match env.session.claim(key, env.reals) {
        Ok(Some(s)) => Ok(Value::Text(s)),
        Ok(None) => Ok(Value::Null),
        Err(e) => Err(e),
    }
}

/// A scalar function applied to its arguments.
pub open spec fn applied(env: EnvV, tick: u64, f: Func, args: RowV) -> Out {
    let t = env.reals;
    match f {
        Func::Coalesce => Ok(first_known(args, 0)),
        Func::Nullif => Ok(
            if value_eq(arg(args, 0), arg(args, 1)) == Some(true) {
                ValueV::Null
            } else {
                arg(args, 0)
            },
        ),
        Func::Ifnull => Ok(
            if arg(args, 0) is Null {
                arg(args, 1)
            } else {
                arg(args, 0)
            },
        ),
        Func::Iif => if args.len() != 3 {
            Err(sql_fail("iif() takes exactly three arguments"@))
        } else if truth(args[0]) == Some(true) {
            Ok(args[1])
        } else {
            Ok(args[2])
        },
        Func::Greatest => Ok(extreme_from(args, Order::Greater, 0, ValueV::Null)),
        Func::Least => Ok(extreme_from(args, Order::Less, 0, ValueV::Null)),
        Func::Lower => map_text_of(t, arg(args, 0), TextFn::Lower),
        Func::Upper => map_text_of(t, arg(args, 0), TextFn::Upper),
        Func::Trim => map_text_of(t, arg(args, 0), TextFn::Trim),
        Func::Ltrim => map_text_of(t, arg(args, 0), TextFn::TrimLeft),
        Func::Rtrim => map_text_of(t, arg(args, 0), TextFn::TrimRight),
        Func::Reverse => map_text_of(t, arg(args, 0), TextFn::Reverse),
        Func::Length => if arg(args, 0) is Null {
            Ok(ValueV::Null)
        } else {
            match text_form(t, arg(args, 0)) {
                Ok(s) => Ok(ValueV::Int(s.len() as i64)),
                Err(e) => Err(e),
            }
        },
        Func::Concat => match joined_from(t, args, 0, Seq::empty()) {
            Ok(s) => Ok(ValueV::Text(s)),
            Err(e) => Err(e),
        },
        Func::Abs => abs_of(arg(args, 0)),
        Func::Round => rounded(t, args),
        Func::Substr => substr_of(t, args),
        Func::Replace => replace_of(t, args),
        Func::Instr => instr_of(t, arg(args, 0), arg(args, 1)),
        Func::Repeat => repeat_of(t, args),
        Func::Left => side_of(t, args, true),
        Func::Right => side_of(t, args, false),
        Func::Lpad => pad_of(t, args, true),
        Func::Rpad => pad_of(t, args, false),
        Func::Ceil => unary_of(t, arg(args, 0), "ceil"@, RealFn::Rounded(Rounding::Up)),
        Func::Floor => unary_of(t, arg(args, 0), "floor"@, RealFn::Rounded(Rounding::Down)),
        Func::Sqrt => unary_of(t, arg(args, 0), "sqrt"@, RealFn::Asked(Unary::Sqrt)),
        Func::Exp => unary_of(t, arg(args, 0), "exp"@, RealFn::Asked(Unary::Exp)),
        Func::Ln => unary_of(t, arg(args, 0), "ln"@, RealFn::Asked(Unary::Ln)),
        Func::Log => unary_of(t, arg(args, 0), "log"@, RealFn::Asked(Unary::Log10)),
        Func::Sign => match as_number(t, arg(args, 0)) {
            Ok(Some(b)) => Ok(ValueV::Int(sign_of(b))),
            Ok(None) => Ok(ValueV::Null),
            Err(e) => Err(e),
        },
        Func::Trunc => match as_number(t, arg(args, 0)) {
            Ok(Some(b)) => Ok(ValueV::Real(real_rounded(Rounding::Zero, b))),
            Ok(None) => Ok(ValueV::Null),
            Err(e) => Err(e),
        },
        Func::Power => power_of(t, args),
        Func::Mod => mod_call(t, args),
        Func::Pi => Ok(ValueV::Real(PI_BITS)),
        Func::Now => Ok(ValueV::Text(timestamp_text(env.now as int))),
        Func::CurrentDate => Ok(ValueV::Text(date_text(env.now as int))),
        Func::CurrentTime => Ok(ValueV::Text(time_text(env.now as int))),
        Func::Date | Func::Datetime | Func::Time | Func::Unixepoch => epoch_text(
            env.now,
            arg(args, 0),
            f,
        ),
        Func::DateTrunc => truncated(env, args),
        Func::Extract => extracted(env, args),
        Func::Strftime => formatted(env, args),
        Func::Uuid => uuid_of(env, tick, args),
        Func::Random => match bits_of(t, AskV::Draw(env.place, tick, call_site(args), 0)) {
            Ok(d) => Ok(ValueV::Real(unit_fraction(d))),
            Err(e) => Err(e),
        },
        Func::Typeof => Ok(ValueV::Text(lower_text(class_name(arg(args, 0))))),
        Func::Hex => hex_of_value(t, arg(args, 0)),
        Func::JsonGet => json_got(t, arg(args, 0), arg(args, 1), false),
        Func::JsonGetText => json_got(t, arg(args, 0), arg(args, 1), true),
        Func::JsonExtract => json_extracted(t, arg(args, 0), arg(args, 1)),
        Func::JsonArray => match json_list(t, args) {
            Ok(s) => Ok(ValueV::Text(s)),
            Err(e) => Err(e),
        },
        Func::ToJson => match value_json(t, arg(args, 0)) {
            Ok(s) => Ok(ValueV::Text(s)),
            Err(e) => Err(e),
        },
        Func::JsonObject => json_object_of(t, args),
        Func::AuthUid => claim_value(env, "sub"@),
        Func::AuthRole => Ok(ValueV::Text(role_of(env.session))),
        Func::AuthClaim => if arg(args, 0) is Null {
            Ok(ValueV::Null)
        } else {
            match text_form(t, arg(args, 0)) {
                Ok(k) => claim_value(env, k),
                Err(e) => Err(e),
            }
        },
    }
}

/// A scalar function call by name.
#[verifier::opaque]
pub open spec fn called(env: EnvV, tick: u64, name: Seq<char>, args: RowV) -> Out {
    match func_named(lower_text(name)) {
        Some(f) => applied(env, tick, f, args),
        None => Err(sql_fail("unknown function: "@ + lower_text(name))),
    }
}

fn draw(env: &Env, tick: u64, args: &[Value], k: u8) -> (r: Result<u64, Stop>)
    ensures
        bits_of(
            env@.reals,
            AskV::Draw(env@.place, tick, call_site(row_view(args@)), k),
        ) == (match r {
            Ok(b) => Ok::<u64, StopV>(b),
            Err(e) => Err(e@),
        }),
{
    let first = arg_at(args, 0);
    let site: i64 = match &first {
        Value::Int(i) => *i,
        _ => 0,
    };
    env.reals.bits(Ask::Draw(own_place(env), tick, site, k))
}

/// Apply a string function.
fn apply_text(env: &Env, f: Func, args: &[Value]) -> (r: Result<Value, Stop>)
    requires
        f == Func::Lower || f == Func::Upper || f == Func::Trim || f == Func::Ltrim || f
            == Func::Rtrim || f == Func::Reverse || f == Func::Length || f == Func::Concat || f
            == Func::Substr || f == Func::Replace || f == Func::Instr || f == Func::Repeat || f
            == Func::Left || f == Func::Right || f == Func::Lpad || f == Func::Rpad || f
            == Func::Typeof || f == Func::Hex,
    ensures
        value_result(r) == applied(env@, 0, f, row_view(args@)),
{
    let a = arg_at(args, 0);
    match f {
        Func::Lower => map_text(env.reals, &a, TextFn::Lower),
        Func::Upper => map_text(env.reals, &a, TextFn::Upper),
        Func::Trim => map_text(env.reals, &a, TextFn::Trim),
        Func::Ltrim => map_text(env.reals, &a, TextFn::TrimLeft),
        Func::Rtrim => map_text(env.reals, &a, TextFn::TrimRight),
        Func::Reverse => map_text(env.reals, &a, TextFn::Reverse),
        Func::Length => if a.is_null() {
            Ok(Value::Null)
        } else {
            match a.text_of(env.reals) {
                Ok(s) => Ok(Value::Int(s.len() as i64)),
                Err(e) => Err(e),
            }
        },
        Func::Concat => match join_known(env.reals, args) {
            Ok(s) => Ok(text_of_chars(&s)),
            Err(e) => Err(e),
        },
        Func::Substr => substr_func(env.reals, args),
        Func::Replace => replace_func(env.reals, args),
        Func::Instr => {
            let b = arg_at(args, 1);
            instr_func(env.reals, &a, &b)
        },
        Func::Repeat => repeat_func(env.reals, args),
        Func::Left => side_func(env.reals, args, true),
        Func::Right => side_func(env.reals, args, false),
        Func::Lpad => pad_func(env.reals, args, true),
        Func::Rpad => pad_func(env.reals, args, false),
        Func::Typeof => {
            let n = lower_chars(a.class_name());
            Ok(text_of_chars(&n))
        },
        _ => hex_func(env.reals, &a),
    }
}

/// Apply a numeric function.
fn apply_number(env: &Env, f: Func, args: &[Value]) -> (r: Result<Value, Stop>)
    requires
        f == Func::Abs || f == Func::Round || f == Func::Ceil || f == Func::Floor || f == Func::Sqrt
            || f == Func::Exp || f == Func::Ln || f == Func::Log || f == Func::Sign || f
            == Func::Trunc || f == Func::Power || f == Func::Mod || f == Func::Pi,
    ensures
        value_result(r) == applied(env@, 0, f, row_view(args@)),
{
    let a = arg_at(args, 0);
    match f {
        Func::Abs => abs_func(&a),
        Func::Round => round_func(env.reals, args),
        Func::Ceil => unary_real(env.reals, &a, "ceil", RealFn::Rounded(Rounding::Up)),
        Func::Floor => unary_real(env.reals, &a, "floor", RealFn::Rounded(Rounding::Down)),
        Func::Sqrt => unary_real(env.reals, &a, "sqrt", RealFn::Asked(Unary::Sqrt)),
        Func::Exp => unary_real(env.reals, &a, "exp", RealFn::Asked(Unary::Exp)),
        Func::Ln => unary_real(env.reals, &a, "ln", RealFn::Asked(Unary::Ln)),
        Func::Log => unary_real(env.reals, &a, "log", RealFn::Asked(Unary::Log10)),
        Func::Sign => match number_value(env.reals, &a) {
            Ok(Some(b)) => Ok(
                Value::Int(
                    match compare_reals(b, 0) {
                        Some(Order::Less) => -1,
                        Some(Order::Greater) => 1,
                        _ => 0,
                    },
                ),
            ),
            Ok(None) => Ok(Value::Null),
            Err(e) => Err(e),
        },
        Func::Trunc => match number_value(env.reals, &a) {
            Ok(Some(b)) => Ok(Value::Real(round_real(Rounding::Zero, b))),
            Ok(None) => Ok(Value::Null),
            Err(e) => Err(e),
        },
        Func::Power => {
            let x = match number_arg(env.reals, args, 0) {
                Ok(x) => x,
                Err(e) => {
                    return Err(e);
                },
            };
            let y = match number_arg(env.reals, args, 1) {
                Ok(y) => y,
                Err(e) => {
                    return Err(e);
                },
            };
            match (x, y) {
                (Some(p), Some(q)) => match env.reals.bits(Ask::Apply2(Binary::Power, p, q)) {
                    Ok(b) => Ok(Value::Real(b)),
                    Err(e) => Err(e),
                },
                _ => Ok(Value::Null),
            }
        },
        Func::Mod => {
            let x = match number_arg(env.reals, args, 0) {
                Ok(x) => x,
                Err(e) => {
                    return Err(e);
                },
            };
            let y = match number_arg(env.reals, args, 1) {
                Ok(y) => y,
                Err(e) => {
                    return Err(e);
                },
            };
            match (x, y) {
                (Some(p), Some(q)) => mod_func(p, q),
                _ => Ok(Value::Null),
            }
        },
        _ => Ok(Value::Real(PI_BITS)),
    }
}

/// Apply a function to its evaluated arguments.
pub fn apply_func(env: &Env, tick: u64, f: Func, args: &[Value]) -> (r: Result<Value, Stop>)
    ensures
        value_result(r) == applied(env@, tick, f, row_view(args@)),
{
    let ghost av = row_view(args@);
    match f {
        Func::Coalesce => Ok(coalesce(args)),
        Func::Nullif => {
            let a = arg_at(args, 0);
            let b = arg_at(args, 1);
            Ok(
                match a.sql_eq(&b) {
                    Some(true) => Value::Null,
                    _ => a,
                },
            )
        },
        Func::Ifnull => {
            let a = arg_at(args, 0);
            Ok(
                if a.is_null() {
                    arg_at(args, 1)
                } else {
                    a
                },
            )
        },
        Func::Iif => {
            if args.len() != 3 {
                return Err(sql_stop(owned("iif() takes exactly three arguments")));
            }
            assert(av[0] == args@[0]@ && av[1] == args@[1]@ && av[2] == args@[2]@);
            match args[0].as_bool() {
                Some(true) => Ok(args[1].clone()),
                _ => Ok(args[2].clone()),
            }
        },
        Func::Greatest => Ok(extreme(args, Order::Greater)),
        Func::Least => Ok(extreme(args, Order::Less)),
        Func::Lower | Func::Upper | Func::Trim | Func::Ltrim | Func::Rtrim | Func::Reverse
        | Func::Length | Func::Concat | Func::Substr | Func::Replace | Func::Instr | Func::Repeat
        | Func::Left | Func::Right | Func::Lpad | Func::Rpad | Func::Typeof
        | Func::Hex => apply_text(env, f, args),
        Func::Abs | Func::Round | Func::Ceil | Func::Floor | Func::Sqrt | Func::Exp | Func::Ln
        | Func::Log | Func::Sign | Func::Trunc | Func::Power | Func::Mod
        | Func::Pi => apply_number(env, f, args),
        Func::Now => Ok(Value::Text(format_timestamp(env.now))),
        Func::CurrentDate => Ok(Value::Text(format_date(env.now))),
        Func::CurrentTime => Ok(Value::Text(format_time(env.now))),
        Func::Date | Func::Datetime | Func::Time | Func::Unixepoch => {
            let a = arg_at(args, 0);
            match value_to_epoch(env.now, &a) {
                Some(e) => Ok(
                    match f {
                        Func::Date => Value::Text(format_date(e)),
                        Func::Datetime => Value::Text(format_timestamp(e)),
                        Func::Time => Value::Text(format_time(e)),
                        _ => Value::Int(e),
                    },
                ),
                None => Ok(Value::Null),
            }
        },
        Func::DateTrunc => date_trunc_func(env, args),
        Func::Extract => extract_func(env, args),
        Func::Strftime => strftime_func(env, args),
        Func::Uuid => match draw(env, tick, args, 0) {
            Ok(a) => match draw(env, tick, args, 1) {
                Ok(b) => {
                    let u = gen_uuid_v4(a, b);
                    Ok(text_of_chars(&u))
                },
                Err(e) => Err(e),
            },
            Err(e) => Err(e),
        },
        Func::Random => match draw(env, tick, args, 0) {
            Ok(d) => Ok(Value::Real(fraction_of(d))),
            Err(e) => Err(e),
        },
        Func::JsonGet => {
            let a = arg_at(args, 0);
            let b = arg_at(args, 1);
            json_get(env.reals, &a, &b, false)
        },
        Func::JsonGetText => {
            let a = arg_at(args, 0);
            let b = arg_at(args, 1);
            json_get(env.reals, &a, &b, true)
        },
        Func::JsonExtract => {
            let a = arg_at(args, 0);
            let b = arg_at(args, 1);
            json_extract_func(env.reals, &a, &b)
        },
        Func::JsonArray => match json_array(env.reals, args) {
            Ok(s) => Ok(text_of_chars(&s)),
            Err(e) => Err(e),
        },
        Func::ToJson => {
            let a = arg_at(args, 0);
            match value_to_json(env.reals, &a) {
                Ok(s) => Ok(text_of_chars(&s)),
                Err(e) => Err(e),
            }
        },
        Func::JsonObject => json_build_object(env.reals, args),
        Func::AuthUid => session_claim(env, "sub"),
        Func::AuthRole => Ok(Value::Text(owned(env.session.role()))),
        Func::AuthClaim => {
            let a = arg_at(args, 0);
            if a.is_null() {
                return Ok(Value::Null);
            }
            match a.text_of(env.reals) {
                Ok(k) => {
                    let key = from_chars(&k);
                    session_claim(env, &key)
                },
                Err(e) => Err(e),
            }
        },
    }
}

/// Dispatch a scalar function call. An unknown function is an error.
pub fn call_func(env: &Env, tick: u64, name: &str, args: &[Value]) -> (r: Result<Value, Stop>)
    ensures
        value_result(r) == called(env@, tick, name@, row_view(args@)),
{
    proof {
        reveal(called);
    }
    let lname = lower_chars(name);
    match func_of(&lname) {
        Some(f) => apply_func(env, tick, f, args),
        None => {
            let n = from_chars(&lname);
            Err(sql_stop(concat2("unknown function: ", &n)))
        },
    }
}

} // verus!
