//! A compact JSON value model for the JSON accessors. The engine stores JSON as
//! text; accessors parse it, navigate it and hand back the sub-value. A number
//! keeps the text it was written with.
use vstd::prelude::*;
use crate::asks::{number_of, shown, Ask, AskV, Reals, RealsV, Stop, StopV};
use crate::ieee::{is_integral, mag_bits, real_integral, real_mag, real_to_int, to_int, BIG_BITS};
use crate::text::{
    from_chars, i64_of_text, int_chars, int_of_text, int_text, is_digit, parse_i64, same,
    slice_chars, to_chars, trim_chars, trimmed,
};
use crate::value::text_result;

verus! {

/// A JSON value.
#[derive(Debug)]
pub enum Json {
    Null,
    Bool(bool),
    Num(String),
    Str(String),
    Arr(Vec<Json>),
    Obj(Vec<(String, Json)>),
}

/// What a [`Json`] value is.
pub enum JsonV {
    Null,
    Bool(bool),
    Num(Seq<char>),
    Str(Seq<char>),
    Arr(Seq<JsonV>),
    Obj(Seq<(Seq<char>, JsonV)>),
}

pub open spec fn json_view(j: Json) -> JsonV
    decreases j,
{
    match j {
        Json::Null => JsonV::Null,
        Json::Bool(b) => JsonV::Bool(b),
        Json::Num(s) => JsonV::Num(s@),
        Json::Str(s) => JsonV::Str(s@),
        Json::Arr(a) => JsonV::Arr(
            Seq::new(
                a@.len(),
                |i: int|
                    if 0 <= i < a@.len() {
                        json_view(a@[i])
                    } else {
                        JsonV::Null
                    },
            ),
        ),
        Json::Obj(m) => JsonV::Obj(
            Seq::new(
                m@.len(),
                |i: int|
                    if 0 <= i < m@.len() {
                        (m@[i].0@, json_view(m@[i].1))
                    } else {
                        (Seq::empty(), JsonV::Null)
                    },
            ),
        ),
    }
}

impl View for Json {
    type V = JsonV;

    open spec fn view(&self) -> JsonV {
        json_view(*self)
    }
}

/// `char::from_u32` gives the character of a scalar value, and none for a
/// surrogate or a number beyond the last code point.
pub assume_specification[ char::from_u32 ](n: u32) -> (r: Option<char>)
    ensures
        r == (if n <= 0xD7FF || (0xE000 <= n <= 0x10FFFF) {
            Some(n as char)
        } else {
            None
        }),
;

// ---- quoting ---------------------------------------------------------------------

pub open spec fn hex_lower(v: int) -> char {
    if v < 10 {
        (v + '0' as int) as char
    } else {
        (v - 10 + 'a' as int) as char
    }
}

/// How one character stands inside a JSON string.
pub open spec fn escape_char(c: char) -> Seq<char> {
    if c == '"' {
        seq!['\\', '"']
    } else if c == '\\' {
        seq!['\\', '\\']
    } else if c == '\n' {
        seq!['\\', 'n']
    } else if c == '\r' {
        seq!['\\', 'r']
    } else if c == '\t' {
        seq!['\\', 't']
    } else if (c as u32) < 0x20 {
        seq!['\\', 'u', '0', '0', hex_lower(c as int / 16), hex_lower(c as int % 16)]
    } else {
        seq![c]
    }
}

pub open spec fn escaped(s: Seq<char>) -> Seq<char>
    decreases s.len(),
{
    if s.len() == 0 {
        Seq::empty()
    } else {
        escaped(s.drop_last()) + escape_char(s.last())
    }
}

/// A text as a JSON string literal.
pub open spec fn json_quoted(s: Seq<char>) -> Seq<char> {
    seq!['"'] + escaped(s) + seq!['"']
}

fn hex_digit(v: u8) -> (r: char)
    requires
        v < 16,
    ensures
        r == hex_lower(v as int),
{
    if v < 10 {
        (v + 48) as char
    } else {
        (v - 10 + 97) as char
    }
}

fn push_escaped(out: &mut Vec<char>, c: char)
    ensures
        final(out)@ == old(out)@ + escape_char(c),
{
    if c == '"' {
        out.push('\\');
        out.push('"');
    } else if c == '\\' {
        out.push('\\');
        out.push('\\');
    } else if c == '\n' {
        out.push('\\');
        out.push('n');
    } else if c == '\r' {
        out.push('\\');
        out.push('r');
    } else if c == '\t' {
        out.push('\\');
        out.push('t');
    } else if (c as u32) < 0x20 {
        let n: u8 = c as u8;
        out.push('\\');
        out.push('u');
        out.push('0');
        out.push('0');
        out.push(hex_digit(n / 16));
        out.push(hex_digit(n % 16));
    } else {
        out.push(c);
    }
    assert(out@ =~= old(out)@ + escape_char(c));
}

/// Append `s` as a JSON string literal.
pub fn push_quoted(out: &mut Vec<char>, s: &[char])
    ensures
        final(out)@ == old(out)@ + json_quoted(s@),
{
    let ghost base = out@.push('"');
    out.push('"');
    let mut i: usize = 0;
    assert(s@.take(0) =~= Seq::<char>::empty());
    assert(out@ =~= base + escaped(s@.take(0)));
    while i < s.len()
        invariant
            i <= s.len(),
            out@ == base + escaped(s@.take(i as int)),
        decreases s.len() - i,
    {
        assert(s@.take(i + 1).drop_last() =~= s@.take(i as int));
        push_escaped(out, s[i]);
        assert(out@ =~= base + escaped(s@.take(i + 1)));
        i += 1;
    }
    assert(s@.take(i as int) =~= s@);
    out.push('"');
    assert(out@ =~= old(out)@ + json_quoted(s@));
}

/// Quote and escape a text as a JSON string literal.
pub fn json_quote(s: &[char]) -> (r: Vec<char>)
    ensures
        r@ == json_quoted(s@),
{
    let mut out: Vec<char> = Vec::new();
    push_quoted(&mut out, s);
    assert(out@ =~= json_quoted(s@));
    out
}

// ---- number grammar ----------------------------------------------------------------

/// The first place from `i` on that holds no digit.
pub open spec fn digits_end(s: Seq<char>, i: int) -> int
    decreases s.len() - i,
{
    if i >= s.len() || !is_digit(s[i]) {
        i
    } else {
        digits_end(s, i + 1)
    }
}

/// Whether an exponent part, or nothing, stands at `i` and runs to the end.
pub open spec fn exponent_at(s: Seq<char>, i: int) -> bool {
    if i >= s.len() {
        true
    } else if s[i] == 'e' || s[i] == 'E' {
        let j = if i + 1 < s.len() && (s[i + 1] == '+' || s[i + 1] == '-') {
            i + 2
        } else {
            i + 1
        };
        j < s.len() && digits_end(s, j) == s.len()
    } else {
        false
    }
}

/// Whether a text is a JSON number: an optional minus, digits that do not start with a
/// needless zero, perhaps a point with digits behind it, perhaps an exponent.
pub open spec fn decimal_number(s: Seq<char>) -> bool {
    let i = if s.len() > 0 && s[0] == '-' {
        1int
    } else {
        0int
    };
    let j = digits_end(s, i);
    &&& j > i
    &&& s[i] == '0' ==> j == i + 1
    &&& if j < s.len() && s[j] == '.' {
        let k = digits_end(s, j + 1);
        k > j + 1 && exponent_at(s, k)
    } else {
        exponent_at(s, j)
    }
}

fn skip_digits(s: &[char], from: usize) -> (r: usize)
    requires
        from <= s.len(),
    ensures
        r == digits_end(s@, from as int),
        from <= r <= s.len(),
{
    let mut i: usize = from;
    while i < s.len() && '0' <= s[i] && s[i] <= '9'
        invariant
            from <= i <= s.len(),
            digits_end(s@, i as int) == digits_end(s@, from as int),
        decreases s.len() - i,
    {
        i += 1;
    }
    i
}

fn exponent_ok(s: &[char], i: usize) -> (r: bool)
    requires
        i <= s.len(),
    ensures
        r == exponent_at(s@, i as int),
{
    if i >= s.len() {
        true
    } else if s[i] == 'e' || s[i] == 'E' {
        let j: usize = if i + 1 < s.len() && (s[i + 1] == '+' || s[i + 1] == '-') {
            i + 2
        } else {
            i + 1
        };
        j < s.len() && skip_digits(s, j) == s.len()
    } else {
        false
    }
}

/// Whether a text is a JSON number.
pub fn is_decimal(s: &[char]) -> (r: bool)
    ensures
        r == decimal_number(s@),
{
    let i: usize = if s.len() > 0 && s[0] == '-' {
        1
    } else {
        0
    };
    let j = skip_digits(s, i);
    if j == i || (s[i] == '0' && j > i + 1) {
        return false;
    }
    if j < s.len() && s[j] == '.' {
        let k = skip_digits(s, j + 1);
        k > j + 1 && exponent_ok(s, k)
    } else {
        exponent_ok(s, j)
    }
}

// ---- parsing -----------------------------------------------------------------------

/// White space between the parts of a document.
pub open spec fn space(c: char) -> bool {
    c == ' ' || c == '\t' || c == '\n' || c == '\r'
}

/// The first place from `i` on that holds no white space.
pub open spec fn skip_blank(s: Seq<char>, i: int) -> int
    decreases s.len() - i,
{
    if i >= s.len() || !space(s[i]) {
        i
    } else {
        skip_blank(s, i + 1)
    }
}

pub open spec fn number_char(c: char) -> bool {
    is_digit(c) || c == '-' || c == '+' || c == '.' || c == 'e' || c == 'E'
}

pub open spec fn number_end(s: Seq<char>, i: int) -> int
    decreases s.len() - i,
{
    if i >= s.len() || !number_char(s[i]) {
        i
    } else {
        number_end(s, i + 1)
    }
}

pub open spec fn number_at(s: Seq<char>, i: int) -> Option<(JsonV, int)> {
    let j = number_end(s, i);
    if j == i || !decimal_number(s.subrange(i, j)) {
        None
    } else {
        Some((JsonV::Num(s.subrange(i, j)), j))
    }
}

pub open spec fn literal_at(s: Seq<char>, i: int, word: Seq<char>, v: JsonV) -> Option<
    (JsonV, int),
> {
    if i + word.len() <= s.len() && s.subrange(i, i + word.len()) == word {
        Some((v, i + word.len()))
    } else {
        None
    }
}

pub open spec fn hex_val(c: char) -> Option<int> {
    if '0' <= c && c <= '9' {
        Some(c as int - '0' as int)
    } else if 'a' <= c && c <= 'f' {
        Some(c as int - 'a' as int + 10)
    } else if 'A' <= c && c <= 'F' {
        Some(c as int - 'A' as int + 10)
    } else {
        None
    }
}

/// The character that four hex digits at `i` denote; a surrogate reads as the
/// replacement character.
pub open spec fn unicode_at(s: Seq<char>, i: int) -> Option<char> {
    if i + 4 > s.len() {
        None
    } else {
        match (hex_val(s[i]), hex_val(s[i + 1]), hex_val(s[i + 2]), hex_val(s[i + 3])) {
            (Some(a), Some(b), Some(c), Some(d)) => {
                let n = a * 4096 + b * 256 + c * 16 + d;
                Some(
                    if 0xD800 <= n <= 0xDFFF {
                        '\u{fffd}'
                    } else {
                        n as char
                    },
                )
            },
            _ => None,
        }
    }
}

pub open spec fn plain_escape(e: char) -> Option<char> {
    if e == '"' {
        Some('"')
    } else if e == '\\' {
        Some('\\')
    } else if e == '/' {
        Some('/')
    } else if e == 'n' {
        Some('\n')
    } else if e == 't' {
        Some('\t')
    } else if e == 'r' {
        Some('\r')
    } else if e == 'b' {
        Some('\u{8}')
    } else if e == 'f' {
        Some('\u{c}')
    } else {
        None
    }
}

/// The rest of a string literal from `i` on, behind `acc`, and where it ends. A
/// control character stands there only by its escape.
pub open spec fn string_from(s: Seq<char>, i: int, acc: Seq<char>) -> Option<(Seq<char>, int)>
    decreases s.len() - i,
{
    if i >= s.len() {
        None
    } else if s[i] == '"' {
        Some((acc, i + 1))
    } else if s[i] == '\\' {
        if i + 1 >= s.len() {
            None
        } else if s[i + 1] == 'u' {
            match unicode_at(s, i + 2) {
                Some(c) => string_from(s, i + 6, acc.push(c)),
                None => None,
            }
        } else {
            match plain_escape(s[i + 1]) {
                Some(c) => string_from(s, i + 2, acc.push(c)),
                None => None,
            }
        }
    } else if (s[i] as u32) < 0x20 {
        None
    } else {
        string_from(s, i + 1, acc.push(s[i]))
    }
}

pub open spec fn string_at(s: Seq<char>, i: int) -> Option<(Seq<char>, int)> {
    if i < s.len() && s[i] == '"' {
        string_from(s, i + 1, Seq::empty())
    } else {
        None
    }
}

/// The value that starts at `i`, white space aside, and where it ends.
pub open spec fn value_at(s: Seq<char>, at: int) -> Option<(JsonV, int)>
    decreases s.len() - at, 1int,
{
    let i = skip_blank(s, at);
    if at < 0 || i < at || i >= s.len() {
        None
    } else if s[i] == '{' {
        let j = skip_blank(s, i + 1);
        if j < s.len() && s[j] == '}' {
            Some((JsonV::Obj(Seq::empty()), j + 1))
        } else if i < j <= s.len() {
            members_from(s, j, Seq::empty())
        } else {
            None
        }
    } else if s[i] == '[' {
        let j = skip_blank(s, i + 1);
        if j < s.len() && s[j] == ']' {
            Some((JsonV::Arr(Seq::empty()), j + 1))
        } else if i < j <= s.len() {
            elements_from(s, j, Seq::empty())
        } else {
            None
        }
    } else if s[i] == '"' {
        match string_at(s, i) {
            Some((t, j)) => Some((JsonV::Str(t), j)),
            None => None,
        }
    } else if s[i] == 't' {
        literal_at(s, i, "true"@, JsonV::Bool(true))
    } else if s[i] == 'f' {
        literal_at(s, i, "false"@, JsonV::Bool(false))
    } else if s[i] == 'n' {
        literal_at(s, i, "null"@, JsonV::Null)
    } else {
        number_at(s, i)
    }
}

/// The elements of an array from `i` on, behind `acc`.
pub open spec fn elements_from(s: Seq<char>, i: int, acc: Seq<JsonV>) -> Option<(JsonV, int)>
    decreases s.len() - i, 2int,
{
    match value_at(s, i) {
        Some((v, j)) => {
            let k = skip_blank(s, j);
            if i < 0 || j <= i || k < j || k >= s.len() {
                None
            } else if s[k] == ',' {
                elements_from(s, k + 1, acc.push(v))
            } else if s[k] == ']' {
                Some((JsonV::Arr(acc.push(v)), k + 1))
            } else {
                None
            }
        },
        None => None,
    }
}

/// The members of an object from `i` on, behind `acc`.
pub open spec fn members_from(s: Seq<char>, at: int, acc: Seq<(Seq<char>, JsonV)>) -> Option<
    (JsonV, int),
>
    decreases s.len() - at, 2int,
{
    let i = skip_blank(s, at);
    match string_at(s, i) {
        Some((key, j)) => {
            let c = skip_blank(s, j);
            if at < 0 || i < at || j <= i || c < j || c >= s.len() || s[c] != ':' {
                None
            } else {
                match value_at(s, c + 1) {
                    Some((v, e)) => {
                        let k = skip_blank(s, e);
                        if e <= c || k < e || k >= s.len() {
                            None
                        } else if s[k] == ',' {
                            members_from(s, k + 1, acc.push((key, v)))
                        } else if s[k] == '}' {
                            Some((JsonV::Obj(acc.push((key, v))), k + 1))
                        } else {
                            None
                        }
                    },
                    None => None,
                }
            }
        },
        None => None,
    }
}

/// The value a whole document denotes.
pub open spec fn document(s: Seq<char>) -> Option<JsonV> {
    match value_at(s, 0) {
        Some((v, j)) => if skip_blank(s, j) == s.len() {
            Some(v)
        } else {
            None
        },
        None => None,
    }
}

pub fn skip_ws(s: &[char], from: usize) -> (r: usize)
    requires
        from <= s.len(),
    ensures
        r == skip_blank(s@, from as int),
        from <= r <= s.len(),
{
    let mut i: usize = from;
    while i < s.len() && (s[i] == ' ' || s[i] == '\t' || s[i] == '\n' || s[i] == '\r')
        invariant
            from <= i <= s.len(),
            skip_blank(s@, i as int) == skip_blank(s@, from as int),
        decreases s.len() - i,
    {
        i += 1;
    }
    i
}

fn read_number(s: &[char], from: usize) -> (r: Option<(Json, usize)>)
    requires
        from < s.len(),
    ensures
        match r {
            Some((v, j)) => number_at(s@, from as int) == Some((v@, j as int)) && from < j
                <= s.len(),
            None => number_at(s@, from as int) is None,
        },
{
    let mut i: usize = from;
    while i < s.len() && (('0' <= s[i] && s[i] <= '9') || s[i] == '-' || s[i] == '+' || s[i] == '.'
        || s[i] == 'e' || s[i] == 'E')
        invariant
            from <= i <= s.len(),
            number_end(s@, i as int) == number_end(s@, from as int),
        decreases s.len() - i,
    {
        i += 1;
    }
    if i == from {
        return None;
    }
    let t = slice_chars(s, from, i);
    if is_decimal(&t) {
        Some((Json::Num(from_chars(&t)), i))
    } else {
        None
    }
}

fn read_literal(s: &[char], from: usize, word: &str, v: Json) -> (r: Option<(Json, usize)>)
    requires
        from < s.len(),
    ensures
        match r {
            Some((x, j)) => literal_at(s@, from as int, word@, v@) == Some((x@, j as int)) && from
                <= j <= s.len() && (word@.len() > 0 ==> from < j),
            None => literal_at(s@, from as int, word@, v@) is None,
        },
{
    let w = to_chars(word);
    if crate::text::found_at(s, &w, from) {
        Some((v, from + w.len()))
    } else {
        None
    }
}

fn hex_of(c: char) -> (r: Option<u32>)
    ensures
        match r {
            Some(v) => hex_val(c) == Some(v as int) && v < 16,
            None => hex_val(c) is None,
        },
{
    let n: u32 = c as u32;
    if '0' <= c && c <= '9' {
        Some(n - 48)
    } else if 'a' <= c && c <= 'f' {
        Some(n - 97 + 10)
    } else if 'A' <= c && c <= 'F' {
        Some(n - 65 + 10)
    } else {
        None
    }
}

fn read_unicode(s: &[char], i: usize) -> (r: Option<char>)
    requires
        i <= s.len(),
    ensures
        r == unicode_at(s@, i as int),
{
    if s.len() - i < 4 {
        return None;
    }
    match (hex_of(s[i]), hex_of(s[i + 1]), hex_of(s[i + 2]), hex_of(s[i + 3])) {
        (Some(a), Some(b), Some(c), Some(d)) => {
            let n: u32 = a * 4096 + b * 256 + c * 16 + d;
            match char::from_u32(n) {
                Some(ch) => Some(ch),
                None => Some('\u{fffd}'),
            }
        },
        _ => None,
    }
}

fn read_escape(e: char) -> (r: Option<char>)
    ensures
        r == plain_escape(e),
{
    if e == '"' {
        Some('"')
    } else if e == '\\' {
        Some('\\')
    } else if e == '/' {
        Some('/')
    } else if e == 'n' {
        Some('\n')
    } else if e == 't' {
        Some('\t')
    } else if e == 'r' {
        Some('\r')
    } else if e == 'b' {
        Some('\u{8}')
    } else if e == 'f' {
        Some('\u{c}')
    } else {
        None
    }
}

fn read_string(s: &[char], from: usize) -> (r: Option<(Vec<char>, usize)>)
    requires
        from <= s.len(),
    ensures
        match r {
            Some((t, j)) => string_at(s@, from as int) == Some((t@, j as int)) && from < j
                <= s.len(),
            None => string_at(s@, from as int) is None,
        },
{
    if from >= s.len() || s[from] != '"' {
        return None;
    }
    let mut i: usize = from + 1;
    let mut out: Vec<char> = Vec::new();
    assert(out@ =~= Seq::<char>::empty());
    while i < s.len()
        invariant
            from < i <= s.len(),
            string_from(s@, i as int, out@) == string_at(s@, from as int),
        decreases s.len() - i,
    {
        let c = s[i];
        if c == '"' {
            return Some((out, i + 1));
        }
        if c == '\\' {
            if i + 1 >= s.len() {
                return None;
            }
            let e = s[i + 1];
            if e == 'u' {
                match read_unicode(s, i + 2) {
                    Some(ch) => {
                        out.push(ch);
                        i += 6;
                    },
                    None => {
                        return None;
                    },
                }
            } else {
                match read_escape(e) {
                    Some(ch) => {
                        out.push(ch);
                        i += 2;
                    },
                    None => {
                        return None;
                    },
                }
            }
        } else if (c as u32) < 0x20 {
            return None;
        } else {
            out.push(c);
            i += 1;
        }
    }
    None
}

pub open spec fn jsons_view(v: Seq<Json>) -> Seq<JsonV> {
    Seq::new(v.len(), |i: int| v[i]@)
}

pub open spec fn members_view(v: Seq<(String, Json)>) -> Seq<(Seq<char>, JsonV)> {
    Seq::new(v.len(), |i: int| (v[i].0@, v[i].1@))
}

proof fn lemma_arr_view(v: Vec<Json>)
    ensures
        Json::Arr(v)@ == JsonV::Arr(jsons_view(v@)),
{
    assert(Json::Arr(v)@->Arr_0 =~= jsons_view(v@));
}

proof fn lemma_obj_view(v: Vec<(String, Json)>)
    ensures
        Json::Obj(v)@ == JsonV::Obj(members_view(v@)),
{
    assert(Json::Obj(v)@->Obj_0 =~= members_view(v@));
}

fn read_value(s: &[char], at: usize) -> (r: Option<(Json, usize)>)
    requires
        at <= s.len(),
    ensures
        match r {
            Some((v, j)) => value_at(s@, at as int) == Some((v@, j as int)) && at < j <= s.len(),
            None => value_at(s@, at as int) is None,
        },
    decreases s.len() - at, 1int,
{
    let i = skip_ws(s, at);
    if i >= s.len() {
        return None;
    }
    let c = s[i];
    if c == '{' {
        let j = skip_ws(s, i + 1);
        if j < s.len() && s[j] == '}' {
            let v: Vec<(String, Json)> = Vec::new();
            proof {
                lemma_obj_view(v);
                assert(members_view(v@) =~= Seq::<(Seq<char>, JsonV)>::empty());
            }
            Some((Json::Obj(v), j + 1))
        } else {
            read_members(s, j)
        }
    } else if c == '[' {
        let j = skip_ws(s, i + 1);
        if j < s.len() && s[j] == ']' {
            let v: Vec<Json> = Vec::new();
            proof {
                lemma_arr_view(v);
                assert(jsons_view(v@) =~= Seq::<JsonV>::empty());
            }
            Some((Json::Arr(v), j + 1))
        } else {
            read_elements(s, j)
        }
    } else if c == '"' {
        match read_string(s, i) {
            Some((t, j)) => Some((Json::Str(from_chars(&t)), j)),
            None => None,
        }
    } else if c == 't' {
        proof {
            reveal_strlit("true");
        }
        read_literal(s, i, "true", Json::Bool(true))
    } else if c == 'f' {
        proof {
            reveal_strlit("false");
        }
        read_literal(s, i, "false", Json::Bool(false))
    } else if c == 'n' {
        proof {
            reveal_strlit("null");
        }
        read_literal(s, i, "null", Json::Null)
    } else {
        read_number(s, i)
    }
}

fn read_elements(s: &[char], from: usize) -> (r: Option<(Json, usize)>)
    requires
        from <= s.len(),
    ensures
        match r {
            Some((v, j)) => elements_from(s@, from as int, Seq::empty()) == Some((v@, j as int))
                && from < j <= s.len(),
            None => elements_from(s@, from as int, Seq::empty()) is None,
        },
    decreases s.len() - from, 2int,
{
    let mut i: usize = from;
    let mut out: Vec<Json> = Vec::new();
    assert(jsons_view(out@) =~= Seq::<JsonV>::empty());
    loop
        invariant
            from <= i <= s.len(),
            elements_from(s@, i as int, jsons_view(out@)) == elements_from(
                s@,
                from as int,
                Seq::empty(),
            ),
        decreases s.len() - i,
    {
        match read_value(s, i) {
            Some((v, j)) => {
                let ghost before = jsons_view(out@);
                let ghost vv = v@;
                out.push(v);
                assert(jsons_view(out@) =~= before.push(vv));
                let k = skip_ws(s, j);
                if k >= s.len() {
                    return None;
                }
                if s[k] == ',' {
                    i = k + 1;
                } else if s[k] == ']' {
                    proof {
                        lemma_arr_view(out);
                    }
                    return Some((Json::Arr(out), k + 1));
                } else {
                    return None;
                }
            },
            None => {
                return None;
            },
        }
    }
}

fn read_members(s: &[char], from: usize) -> (r: Option<(Json, usize)>)
    requires
        from <= s.len(),
    ensures
        match r {
            Some((v, j)) => members_from(s@, from as int, Seq::empty()) == Some((v@, j as int))
                && from < j <= s.len(),
            None => members_from(s@, from as int, Seq::empty()) is None,
        },
    decreases s.len() - from, 2int,
{
    let mut at: usize = from;
    let mut out: Vec<(String, Json)> = Vec::new();
    assert(members_view(out@) =~= Seq::<(Seq<char>, JsonV)>::empty());
    loop
        invariant
            from <= at <= s.len(),
            members_from(s@, at as int, members_view(out@)) == members_from(
                s@,
                from as int,
                Seq::empty(),
            ),
        decreases s.len() - at,
    {
        let i = skip_ws(s, at);
        let (key, j) = match read_string(s, i) {
            Some(x) => x,
            None => {
                return None;
            },
        };
        let c = skip_ws(s, j);
        if c >= s.len() || s[c] != ':' {
            return None;
        }
        match read_value(s, c + 1) {
            Some((v, e)) => {
                let ghost before = members_view(out@);
                let ghost pair = (key@, v@);
                out.push((from_chars(&key), v));
                assert(members_view(out@) =~= before.push(pair));
                let k = skip_ws(s, e);
                if k >= s.len() {
                    return None;
                }
                if s[k] == ',' {
                    at = k + 1;
                } else if s[k] == '}' {
                    proof {
                        lemma_obj_view(out);
                    }
                    return Some((Json::Obj(out), k + 1));
                } else {
                    return None;
                }
            },
            None => {
                return None;
            },
        }
    }
}

// ---- rendering and navigation -----------------------------------------------------------

/// The text of a JSON number: integers below `1e15` plainly, others by the
/// shortest decimal form of their double.
pub open spec fn number_text(t: RealsV, s: Seq<char>) -> Result<Seq<char>, StopV> {
    match int_of_text(s) {
        Some(n) => if -1_000_000_000_000_000 < n < 1_000_000_000_000_000 {
            Ok(int_text(n))
        } else {
            real_number_text(t, s)
        },
        None => real_number_text(t, s),
    }
}

pub open spec fn real_number_text(t: RealsV, s: Seq<char>) -> Result<Seq<char>, StopV> {
    match number_of(t, s) {
        Ok(Some(b)) => if real_integral(b) && real_mag(b) < BIG_BITS {
            Ok(int_text(real_to_int(b) as int))
        } else {
            shown(t, AskV::Show(b))
        },
        Ok(None) => Ok(s),
        Err(e) => Err(e),
    }
}

/// Compact JSON text of a value behind `acc`.
pub open spec fn json_text(t: RealsV, j: JsonV, acc: Seq<char>) -> Result<Seq<char>, StopV>
    decreases j, 0int,
{
    match j {
        JsonV::Null => Ok(acc + "null"@),
        JsonV::Bool(b) => Ok(
            acc + if b {
                "true"@
            } else {
                "false"@
            },
        ),
        JsonV::Num(s) => match number_text(t, s) {
            Ok(x) => Ok(acc + x),
            Err(e) => Err(e),
        },
        JsonV::Str(s) => Ok(acc + json_quoted(s)),
        JsonV::Arr(a) => elements_text(t, a, 0, acc.push('[')),
        JsonV::Obj(m) => members_text(t, m, 0, acc.push('{')),
    }
}

pub open spec fn elements_text(t: RealsV, a: Seq<JsonV>, i: int, acc: Seq<char>) -> Result<
    Seq<char>,
    StopV,
>
    decreases a, a.len() - i,
{
    if i < 0 || i >= a.len() {
        Ok(acc.push(']'))
    } else {
        match json_text(
            t,
            a[i],
            if i > 0 {
                acc.push(',')
            } else {
                acc
            },
        ) {
            Ok(x) => elements_text(t, a, i + 1, x),
            Err(e) => Err(e),
        }
    }
}

pub open spec fn members_text(
    t: RealsV,
    m: Seq<(Seq<char>, JsonV)>,
    i: int,
    acc: Seq<char>,
) -> Result<Seq<char>, StopV>
    decreases m, m.len() - i,
{
    if i < 0 || i >= m.len() {
        Ok(acc.push('}'))
    } else {
        let head = (if i > 0 {
            acc.push(',')
        } else {
            acc
        }) + json_quoted(m[i].0);
        match json_text(t, m[i].1, head.push(':')) {
            Ok(x) => members_text(t, m, i + 1, x),
            Err(e) => Err(e),
        }
    }
}

/// The plain text of a value: a string unquoted, `null` none, the rest as JSON.
pub open spec fn plain_text(t: RealsV, j: JsonV) -> Result<Option<Seq<char>>, StopV> {
    match j {
        JsonV::Null => Ok(None),
        JsonV::Str(s) => Ok(Some(s)),
        _ => match json_text(t, j, Seq::empty()) {
            Ok(x) => Ok(Some(x)),
            Err(e) => Err(e),
        },
    }
}

/// The first member with a key, from `i` on.
pub open spec fn member_from(m: Seq<(Seq<char>, JsonV)>, key: Seq<char>, i: int) -> Option<JsonV>
    decreases m.len() - i,
{
    if i < 0 || i >= m.len() {
        None
    } else if m[i].0 == key {
        Some(m[i].1)
    } else {
        member_from(m, key, i + 1)
    }
}

pub open spec fn member(j: JsonV, key: Seq<char>) -> Option<JsonV> {
    match j {
        JsonV::Obj(m) => member_from(m, key, 0),
        _ => None,
    }
}

/// An array element; a negative index counts from the end.
pub open spec fn element(j: JsonV, idx: int) -> Option<JsonV> {
    match j {
        JsonV::Arr(a) => {
            let i = if idx < 0 {
                a.len() + idx
            } else {
                idx
            };
            if 0 <= i < a.len() {
                Some(a[i])
            } else {
                None
            }
        },
        _ => None,
    }
}

/// The end of a path key that starts at `i`.
pub open spec fn key_end(p: Seq<char>, i: int) -> int
    decreases p.len() - i,
{
    if i >= p.len() || p[i] == '.' || p[i] == '[' {
        i
    } else {
        key_end(p, i + 1)
    }
}

/// The end of a path index that starts at `i`.
pub open spec fn bracket_end(p: Seq<char>, i: int) -> int
    decreases p.len() - i,
{
    if i >= p.len() || p[i] == ']' {
        i
    } else {
        bracket_end(p, i + 1)
    }
}

/// The value that a path from `i` on leads to.
pub open spec fn walk(j: JsonV, p: Seq<char>, i: int) -> Option<JsonV>
    decreases p.len() - i,
{
    if i >= p.len() {
        Some(j)
    } else if p[i] == '.' {
        let e = key_end(p, i + 1);
        match member(j, p.subrange(i + 1, e)) {
            Some(x) => if i < e <= p.len() {
                walk(x, p, e)
            } else {
                None
            },
            None => None,
        }
    } else if p[i] == '[' {
        let e = bracket_end(p, i + 1);
        match i64_of_text(trimmed(p.subrange(i + 1, e))) {
            Some(n) => match element(j, n as int) {
                Some(x) => if i < e <= p.len() {
                    walk(
                        x,
                        p,
                        if e < p.len() {
                            e + 1
                        } else {
                            e
                        },
                    )
                } else {
                    None
                },
                None => None,
            },
            None => None,
        }
    } else {
        None
    }
}

/// The value at an SQLite-style path: `$`, `$.key`, `$[0]`, `$.a[1].b`.
pub open spec fn value_at_path(j: JsonV, path: Seq<char>) -> Option<JsonV> {
    walk(
        j,
        if path.len() > 0 && path[0] == '$' {
            path.drop_first()
        } else {
            path
        },
        0,
    )
}

fn real_number_chars(reals: &Reals, s: &[char]) -> (r: Result<Vec<char>, Stop>)
    ensures
        text_result(r) == real_number_text(reals@, s@),
{
    match reals.number(s) {
        Ok(Some(b)) => if is_integral(b) && mag_bits(b) < BIG_BITS {
            Ok(int_chars(to_int(b)))
        } else {
            match reals.show(Ask::Show(b)) {
                Ok(t) => Ok(to_chars(&t)),
                Err(e) => Err(e),
            }
        },
        Ok(None) => Ok(slice_chars_all(s)),
        Err(e) => Err(e),
    }
}

fn slice_chars_all(s: &[char]) -> (r: Vec<char>)
    ensures
        r@ == s@,
{
    let r = slice_chars(s, 0, s.len());
    assert(r@ =~= s@);
    r
}

/// Render a JSON number.
pub fn fmt_num(reals: &Reals, s: &[char]) -> (r: Result<Vec<char>, Stop>)
    ensures
        text_result(r) == number_text(reals@, s@),
{
    match parse_i64(s) {
        Some(n) => if -1_000_000_000_000_000 < n && n < 1_000_000_000_000_000 {
            Ok(int_chars(n))
        } else {
            real_number_chars(reals, s)
        },
        None => real_number_chars(reals, s),
    }
}

fn push_word(out: &mut Vec<char>, w: &str)
    ensures
        final(out)@ == old(out)@ + w@,
{
    let mut c = to_chars(w);
    out.append(&mut c);
}

pub open spec fn write_result(r: Result<(), Stop>, out: Seq<char>) -> Result<Seq<char>, StopV> {
    match r {
        Ok(_) => Ok(out),
        Err(e) => Err(e@),
    }
}

impl Json {
    /// Parse a complete JSON document; `None` on a syntax error or trailing text.
    pub fn parse(s: &str) -> (r: Option<Json>)
        ensures
            match r {
                Some(j) => document(s@) == Some(j@),
                None => document(s@) is None,
            },
    {
        let b = to_chars(s);
        match read_value(&b, 0) {
            Some((v, j)) => if skip_ws(&b, j) == b.len() {
                Some(v)
            } else {
                None
            },
            None => None,
        }
    }

    /// Object member by key.
    pub fn get_key(&self, key: &str) -> (r: Option<&Json>)
        ensures
            match r {
                Some(j) => member(self@, key@) == Some(j@),
                None => member(self@, key@) is None,
            },
    {
        match self {
            Json::Obj(m) => {
                proof {
                    lemma_obj_view(*m);
                }
                let ghost mv = members_view(m@);
                let mut i: usize = 0;
                while i < m.len()
                    invariant
                        i <= m.len(),
                        mv == members_view(m@),
                        self@ == JsonV::Obj(mv),
                        member_from(mv, key@, i as int) == member_from(mv, key@, 0),
                    decreases m.len() - i,
                {
                    assert(mv[i as int] == (m@[i as int].0@, m@[i as int].1@));
                    if same(&m[i].0, key) {
                        return Some(&m[i].1);
                    }
                    i += 1;
                }
                None
            },
            _ => None,
        }
    }

    /// Array element by index; a negative index counts from the end.
    pub fn get_index(&self, idx: i64) -> (r: Option<&Json>)
        ensures
            match r {
                Some(j) => element(self@, idx as int) == Some(j@),
                None => element(self@, idx as int) is None,
            },
    {
        match self {
            Json::Arr(a) => {
                proof {
                    lemma_arr_view(*a);
                }
                let n: i128 = a.len() as i128;
                let i: i128 = if idx < 0 {
                    n + idx as i128
                } else {
                    idx as i128
                };
                if 0 <= i && i < n {
                    assert(jsons_view(a@)[i as int] == a@[i as int]@);
                    Some(&a[i as usize])
                } else {
                    None
                }
            },
            _ => None,
        }
    }

    fn write_json(&self, reals: &Reals, out: &mut Vec<char>) -> (r: Result<(), Stop>)
        ensures
            write_result(r, final(out)@) == json_text(reals@, self@, old(out)@),
        decreases self,
    {
        let ghost base = out@;
        match self {
            Json::Null => {
                push_word(out, "null");
                Ok(())
            },
            Json::Bool(b) => {
                push_word(
                    out,
                    if *b {
                        "true"
                    } else {
                        "false"
                    },
                );
                Ok(())
            },
            Json::Num(s) => {
                let cs = to_chars(s);
                match fmt_num(reals, &cs) {
                    Ok(mut x) => {
                        out.append(&mut x);
                        Ok(())
                    },
                    Err(e) => Err(e),
                }
            },
            Json::Str(s) => {
                let cs = to_chars(s);
                push_quoted(out, &cs);
                Ok(())
            },
            Json::Arr(a) => {
                proof {
                    lemma_arr_view(*a);
                }
                let ghost av = jsons_view(a@);
                out.push('[');
                let mut i: usize = 0;
                while i < a.len()
                    invariant
                        i <= a.len(),
                        av == jsons_view(a@),
                        self@ == JsonV::Arr(av),
                        base == old(out)@,
                        decreases_to!(self => a),
                        elements_text(reals@, av, i as int, out@) == elements_text(
                            reals@,
                            av,
                            0,
                            base.push('['),
                        ),
                    decreases a.len() - i,
                {
                    assert(av[i as int] == a@[i as int]@);
                    if i > 0 {
                        out.push(',');
                    }
                    match a[i].write_json(reals, out) {
                        Ok(_) => {},
                        Err(e) => {
                            return Err(e);
                        },
                    }
                    i += 1;
                }
                out.push(']');
                Ok(())
            },
            Json::Obj(m) => {
                proof {
                    lemma_obj_view(*m);
                }
                let ghost mv = members_view(m@);
                out.push('{');
                let mut i: usize = 0;
                while i < m.len()
                    invariant
                        i <= m.len(),
                        mv == members_view(m@),
                        self@ == JsonV::Obj(mv),
                        base == old(out)@,
                        decreases_to!(self => m),
                        members_text(reals@, mv, i as int, out@) == members_text(
                            reals@,
                            mv,
                            0,
                            base.push('{'),
                        ),
                    decreases m.len() - i,
                {
                    assert(mv[i as int] == (m@[i as int].0@, m@[i as int].1@));
                    if i > 0 {
                        out.push(',');
                    }
                    let k = to_chars(&m[i].0);
                    push_quoted(out, &k);
                    out.push(':');
                    match m[i].1.write_json(reals, out) {
                        Ok(_) => {},
                        Err(e) => {
                            return Err(e);
                        },
                    }
                    i += 1;
                }
                out.push('}');
                Ok(())
            },
        }
    }

    /// Compact JSON text.
    pub fn to_json_text(&self, reals: &Reals) -> (r: Result<Vec<char>, Stop>)
        ensures
            text_result(r) == json_text(reals@, self@, Seq::empty()),
    {
        let mut out: Vec<char> = Vec::new();
        assert(out@ =~= Seq::<char>::empty());
        match self.write_json(reals, &mut out) {
            Ok(_) => Ok(out),
            Err(e) => Err(e),
        }
    }

    /// The plain text form: a string unquoted, JSON `null` none, the rest as JSON.
    pub fn as_text(&self, reals: &Reals) -> (r: Result<Option<Vec<char>>, Stop>)
        ensures
            match r {
                Ok(Some(s)) => plain_text(reals@, self@) == Ok::<Option<Seq<char>>, StopV>(
                    Some(s@),
                ),
                Ok(None) => plain_text(reals@, self@) == Ok::<Option<Seq<char>>, StopV>(None),
                Err(e) => plain_text(reals@, self@) == Err::<Option<Seq<char>>, StopV>(e@),
            },
    {
        match self {
            Json::Null => Ok(None),
            Json::Str(s) => Ok(Some(to_chars(s))),
            _ => match self.to_json_text(reals) {
                Ok(x) => Ok(Some(x)),
                Err(e) => Err(e),
            },
        }
    }

    /// Navigate a path: `$`, `$.key`, `$[0]`, `$.a[1].b`.
    pub fn extract_path(&self, path: &str) -> (r: Option<&Json>)
        ensures
            match r {
                Some(j) => value_at_path(self@, path@) == Some(j@),
                None => value_at_path(self@, path@) is None,
            },
    {
        let all = to_chars(path);
        let p = if all.len() > 0 && all[0] == '$' {
            let q = slice_chars(&all, 1, all.len());
            assert(q@ =~= path@.drop_first());
            q
        } else {
            all
        };
        let ghost pv = p@;
        let mut cur: &Json = self;
        let mut i: usize = 0;
        while i < p.len()
            invariant
                i <= p.len(),
                pv == p@,
                walk(cur@, pv, i as int) == value_at_path(self@, path@),
            decreases p.len() - i,
        {
            if p[i] == '.' {
                let mut e: usize = i + 1;
                while e < p.len() && p[e] != '.' && p[e] != '['
                    invariant
                        i < e <= p.len(),
                        key_end(p@, e as int) == key_end(p@, i + 1),
                    decreases p.len() - e,
                {
                    e += 1;
                }
                let key = slice_chars(&p, i + 1, e);
                let k = from_chars(&key);
                match cur.get_key(&k) {
                    Some(x) => {
                        cur = x;
                    },
                    None => {
                        return None;
                    },
                }
                i = e;
            } else if p[i] == '[' {
                let mut e: usize = i + 1;
                while e < p.len() && p[e] != ']'
                    invariant
                        i < e <= p.len(),
                        bracket_end(p@, e as int) == bracket_end(p@, i + 1),
                    decreases p.len() - e,
                {
                    e += 1;
                }
                let num = slice_chars(&p, i + 1, e);
                let num = trim_chars(&num);
                match parse_i64(&num) {
                    Some(n) => match cur.get_index(n) {
                        Some(x) => {
                            cur = x;
                        },
                        None => {
                            return None;
                        },
                    },
                    None => {
                        return None;
                    },
                }
                i = if e < p.len() {
                    e + 1
                } else {
                    e
                };
            } else {
                return None;
            }
        }
        Some(cur)
    }
}

} // verus!
