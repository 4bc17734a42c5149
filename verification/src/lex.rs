//! The lexer: statement text to tokens.
use vstd::prelude::*;
use crate::asks::{number_of, shown, Ask, AskV, Reals, RealsV, Stop, StopV};
use crate::env::{sql_fail, sql_stop};
use crate::ieee::INF_BITS;
use crate::strfn::{debug_string, debug_text};
use crate::text::{
    concat3, from_chars, i64_of_text, int_string, int_text, is_digit, nat_string, nat_text, owned,
    parse_i64, slice_chars, to_chars,
};

verus! {

/// Tokens that carry nothing.
#[derive(Debug, Clone, Copy, PartialEq, Eq, Structural)]
pub enum Sym {
    Param,
    LParen,
    RParen,
    LBracket,
    RBracket,
    Comma,
    Semi,
    DColon,
    Dot,
    Star,
    Eq,
    Ne,
    Lt,
    Le,
    Gt,
    Ge,
    Plus,
    Minus,
    Slash,
    Percent,
    Concat,
    Arrow,
    ArrowText,
    VecL2,
    VecCosine,
    VecIp,
    Eof,
}

#[derive(Debug)]
pub enum Tok {
    Word(String),
    Int(i64),
    Real(u64),
    Str(String),
    /// `$n`.
    NumParam(usize),
    /// `:name`.
    NamedParam(String),
    Sym(Sym),
}

pub enum TokV {
    Word(Seq<char>),
    Int(i64),
    Real(u64),
    Str(Seq<char>),
    NumParam(usize),
    NamedParam(Seq<char>),
    Sym(Sym),
}

impl View for Tok {
    type V = TokV;

    open spec fn view(&self) -> TokV {
        match self {
            Tok::Word(w) => TokV::Word(w@),
            Tok::Int(n) => TokV::Int(*n),
            Tok::Real(b) => TokV::Real(*b),
            Tok::Str(s) => TokV::Str(s@),
            Tok::NumParam(n) => TokV::NumParam(*n),
            Tok::NamedParam(w) => TokV::NamedParam(w@),
            Tok::Sym(s) => TokV::Sym(*s),
        }
    }
}

pub open spec fn toks_view(v: Seq<Tok>) -> Seq<TokV> {
    Seq::new(v.len(), |i: int| v[i]@)
}

// ---- characters ----------------------------------------------------------------------------------

pub open spec fn is_blank(c: char) -> bool {
    c == ' ' || c == '\t' || c == '\n' || c == '\r' || c == '\x0C'
}

pub open spec fn is_alpha(c: char) -> bool {
    ('a' <= c && c <= 'z') || ('A' <= c && c <= 'Z')
}

/// What a bare word holds past its first character.
pub open spec fn in_word(c: char) -> bool {
    c == '_' || is_alpha(c) || is_digit(c)
}

fn blank(c: char) -> (r: bool)
    ensures
        r == is_blank(c),
{
    c == ' ' || c == '\t' || c == '\n' || c == '\r' || c == '\x0C'
}

fn alpha(c: char) -> (r: bool)
    ensures
        r == is_alpha(c),
{
    ('a' <= c && c <= 'z') || ('A' <= c && c <= 'Z')
}

fn digit(c: char) -> (r: bool)
    ensures
        r == is_digit(c),
{
    '0' <= c && c <= '9'
}

fn word_char(c: char) -> (r: bool)
    ensures
        r == in_word(c),
{
    c == '_' || alpha(c) || digit(c)
}

/// The bytes of a character's UTF-8 form, each as a character of its own.
pub open spec fn byte_chars(c: char) -> Seq<char> {
    let n = c as int;
    if n < 0x80 {
        seq![c]
    } else if n < 0x800 {
        seq![(192 + n / 64) as char, (128 + n % 64) as char]
    } else if n < 0x10000 {
        seq![(224 + n / 4096) as char, (128 + (n / 64) % 64) as char, (128 + n % 64) as char]
    } else {
        seq![
            (240 + n / 262144) as char,
            (128 + (n / 4096) % 64) as char,
            (128 + (n / 64) % 64) as char,
            (128 + n % 64) as char,
        ]
    }
}

fn latin(n: u32) -> (r: char)
    requires
        n < 256,
    ensures
        r as int == n,
{
    (n as u8) as char
}

fn push_byte_chars(c: char, out: &mut Vec<char>)
    ensures
        final(out)@ == old(out)@ + byte_chars(c),
{
    let n: u32 = c as u32;
    if n < 0x80 {
        out.push(c);
    } else if n < 0x800 {
        out.push(latin(192 + n / 64));
        out.push(latin(128 + n % 64));
    } else if n < 0x10000 {
        out.push(latin(224 + n / 4096));
        out.push(latin(128 + (n / 64) % 64));
        out.push(latin(128 + n % 64));
    } else {
        out.push(latin(240 + n / 262144));
        out.push(latin(128 + (n / 4096) % 64));
        out.push(latin(128 + (n / 64) % 64));
        out.push(latin(128 + n % 64));
    }
    assert(out@ =~= old(out)@ + byte_chars(c));
}

// ---- tokens --------------------------------------------------------------------------------------

/// A token and where the next one starts.
pub struct StepV {
    pub tok: TokV,
    pub next: int,
}

/// Whether the character at `i` is `c`.
pub open spec fn at(s: Seq<char>, i: int, c: char) -> bool {
    0 <= i < s.len() && s[i] == c
}

/// The symbol a single character stands for.
pub open spec fn plain_symbol(c: char) -> Option<Sym> {
    if c == '(' {
        Some(Sym::LParen)
    } else if c == ')' {
        Some(Sym::RParen)
    } else if c == '[' {
        Some(Sym::LBracket)
    } else if c == ']' {
        Some(Sym::RBracket)
    } else if c == ',' {
        Some(Sym::Comma)
    } else if c == ';' {
        Some(Sym::Semi)
    } else if c == '.' {
        Some(Sym::Dot)
    } else if c == '*' {
        Some(Sym::Star)
    } else if c == '+' {
        Some(Sym::Plus)
    } else if c == '-' {
        Some(Sym::Minus)
    } else if c == '/' {
        Some(Sym::Slash)
    } else if c == '%' {
        Some(Sym::Percent)
    } else if c == '?' {
        Some(Sym::Param)
    } else if c == '=' {
        Some(Sym::Eq)
    } else {
        None
    }
}

/// The symbol at `i` and its length: the longest that fits.
pub open spec fn symbol_at(s: Seq<char>, i: int) -> Option<(Sym, int)> {
    let c = s[i];
    if c == '<' {
        if at(s, i + 1, '-') && at(s, i + 2, '>') {
            Some((Sym::VecL2, 3))
        } else if at(s, i + 1, '=') && at(s, i + 2, '>') {
            Some((Sym::VecCosine, 3))
        } else if at(s, i + 1, '#') && at(s, i + 2, '>') {
            Some((Sym::VecIp, 3))
        } else if at(s, i + 1, '=') {
            Some((Sym::Le, 2))
        } else if at(s, i + 1, '>') {
            Some((Sym::Ne, 2))
        } else {
            Some((Sym::Lt, 1))
        }
    } else if c == '>' {
        if at(s, i + 1, '=') {
            Some((Sym::Ge, 2))
        } else {
            Some((Sym::Gt, 1))
        }
    } else if c == '!' && at(s, i + 1, '=') {
        Some((Sym::Ne, 2))
    } else if c == '|' && at(s, i + 1, '|') {
        Some((Sym::Concat, 2))
    } else if c == ':' && at(s, i + 1, ':') {
        Some((Sym::DColon, 2))
    } else if c == '-' && at(s, i + 1, '>') && at(s, i + 2, '>') {
        Some((Sym::ArrowText, 3))
    } else if c == '-' && at(s, i + 1, '>') {
        Some((Sym::Arrow, 2))
    } else {
        match plain_symbol(c) {
            Some(x) => Some((x, 1)),
            None => None,
        }
    }
}

/// The end of the run of word characters at `i`.
pub open spec fn word_end(s: Seq<char>, i: int) -> int
    decreases s.len() - i,
{
    if 0 <= i < s.len() && in_word(s[i]) {
        word_end(s, i + 1)
    } else {
        i
    }
}

/// The end of the run of digits at `i`.
pub open spec fn digits_end(s: Seq<char>, i: int) -> int
    decreases s.len() - i,
{
    if 0 <= i < s.len() && is_digit(s[i]) {
        digits_end(s, i + 1)
    } else {
        i
    }
}

/// The end of the run of digits and points at `i`.
pub open spec fn mantissa_end(s: Seq<char>, i: int) -> int
    decreases s.len() - i,
{
    if 0 <= i < s.len() && (is_digit(s[i]) || s[i] == '.') {
        mantissa_end(s, i + 1)
    } else {
        i
    }
}

/// Where the character `c` next stands, from `i` on.
pub open spec fn next_at(s: Seq<char>, c: char, i: int) -> Option<int>
    decreases s.len() - i,
{
    if i < 0 || i >= s.len() {
        None
    } else if s[i] == c {
        Some(i)
    } else {
        next_at(s, c, i + 1)
    }
}

/// The end of the number at `i`: digits and points, then perhaps an exponent.
pub open spec fn number_end(s: Seq<char>, i: int) -> int {
    let m = mantissa_end(s, i);
    if at(s, m, 'e') || at(s, m, 'E') {
        if at(s, m + 1, '+') || at(s, m + 1, '-') {
            digits_end(s, m + 2)
        } else {
            digits_end(s, m + 1)
        }
    } else {
        m
    }
}

/// A number: an integer where it is made of digits alone and fits, else a real.
pub open spec fn number_token(t: RealsV, text: Seq<char>) -> Result<TokV, StopV> {
    match (if all_plain(text) {
        i64_of_text(text)
    } else {
        None
    }) {
        Some(n) => Ok(TokV::Int(n)),
        None => match number_of(t, text) {
            Err(e) => Err(e),
            Ok(Some(b)) => Ok(TokV::Real(b)),
            Ok(None) => Err(sql_fail("bad number"@)),
        },
    }
}

/// Whether a number has neither a point nor an exponent.
pub open spec fn all_plain(text: Seq<char>) -> bool {
    forall|k: int| 0 <= k < text.len() ==> is_digit(#[trigger] text[k])
}

/// A string literal from behind its quote: `''` stands for one quote.
pub open spec fn string_from(s: Seq<char>, i: int, acc: Seq<char>) -> Result<StepV, StopV>
    decreases s.len() - i,
{
    if i < 0 || i >= s.len() {
        Err(sql_fail("unterminated string literal"@))
    } else if s[i] == '\'' {
        if at(s, i + 1, '\'') {
            string_from(s, i + 2, acc.push('\''))
        } else {
            Ok(StepV { tok: TokV::Str(acc), next: i + 1 })
        }
    } else {
        string_from(s, i + 1, acc + byte_chars(s[i]))
    }
}

/// The number of a `$n` parameter.
pub open spec fn param_number(text: Seq<char>) -> Result<usize, StopV> {
    match i64_of_text(text) {
        Some(n) => if 0 <= n <= usize::MAX {
            Ok(n as usize)
        } else {
            Err(sql_fail("bad parameter number"@))
        },
        None => Err(sql_fail("bad parameter number"@)),
    }
}

/// The token that starts at `i`, where neither a blank nor a comment stands.
pub open spec fn token_at(s: Seq<char>, t: RealsV, i: int) -> Result<StepV, StopV> {
    let c = s[i];
    match symbol_at(s, i) {
        Some((x, n)) => Ok(StepV { tok: TokV::Sym(x), next: i + n }),
        None => if c == '!' {
            Err(sql_fail("unexpected '!'"@))
        } else if c == '|' {
            Err(sql_fail("unexpected '|' (bitwise OR is unsupported)"@))
        } else if c == ':' {
            let e = word_end(s, i + 1);
            if e > i + 1 {
                Ok(StepV { tok: TokV::NamedParam(s.subrange(i + 1, e)), next: e })
            } else {
                Err(sql_fail("unexpected ':'"@))
            }
        } else if c == '$' {
            let e = digits_end(s, i + 1);
            if e > i + 1 {
                match param_number(s.subrange(i + 1, e)) {
                    Ok(n) => Ok(StepV { tok: TokV::NumParam(n), next: e }),
                    Err(x) => Err(x),
                }
            } else {
                Err(sql_fail("unexpected '$'"@))
            }
        } else if c == '\'' {
            string_from(s, i + 1, Seq::empty())
        } else if c == '"' || c == '`' {
            match next_at(s, c, i + 1) {
                Some(e) => Ok(StepV { tok: TokV::Word(s.subrange(i + 1, e)), next: e + 1 }),
                None => Err(sql_fail("unterminated quoted identifier"@)),
            }
        } else if is_digit(c) {
            let e = number_end(s, i);
            match number_token(t, s.subrange(i, e)) {
                Ok(tok) => Ok(StepV { tok, next: e }),
                Err(x) => Err(x),
            }
        } else if c == '_' || is_alpha(c) {
            let e = word_end(s, i);
            Ok(StepV { tok: TokV::Word(s.subrange(i, e)), next: e })
        } else {
            Err(sql_fail("unexpected character '"@ + seq![byte_chars(c)[0]] + "'"@))
        },
    }
}

/// The end of the line at `i`.
pub open spec fn line_end(s: Seq<char>, i: int) -> int
    decreases s.len() - i,
{
    if 0 <= i < s.len() && s[i] != '\n' {
        line_end(s, i + 1)
    } else {
        i
    }
}

/// A place past `i` and within `n`: `e`, which always is one.
pub open spec fn onward(i: int, e: int, n: int) -> int {
    if i < e <= n {
        e
    } else {
        i + 1
    }
}

/// The tokens from `i` on, behind `acc`, with the end token last.
pub open spec fn lexed_from(s: Seq<char>, t: RealsV, i: int, acc: Seq<TokV>) -> Result<
    Seq<TokV>,
    StopV,
>
    decreases s.len() - i,
{
    if i < 0 || i >= s.len() {
        Ok(acc.push(TokV::Sym(Sym::Eof)))
    } else if is_blank(s[i]) {
        lexed_from(s, t, i + 1, acc)
    } else if s[i] == '-' && at(s, i + 1, '-') {
        let e = line_end(s, i);
        lexed_from(
            s,
            t,
            onward(i, e, s.len() as int),
            acc,
        )
    } else {
        match token_at(s, t, i) {
            Err(x) => Err(x),
            Ok(st) => lexed_from(
                s,
                t,
                onward(i, st.next, s.len() as int),
                acc.push(st.tok),
            ),
        }
    }
}

/// The tokens of a statement.
pub open spec fn lexed(s: Seq<char>, t: RealsV) -> Result<Seq<TokV>, StopV> {
    lexed_from(s, t, 0, Seq::empty())
}

fn is_at(s: &[char], i: usize, c: char) -> (r: bool)
    ensures
        r == at(s@, i as int, c),
{
    i < s.len() && s[i] == c
}

fn simple_token(c: char) -> (r: Option<Sym>)
    ensures
        r == plain_symbol(c),
{
    if c == '(' {
        Some(Sym::LParen)
    } else if c == ')' {
        Some(Sym::RParen)
    } else if c == '[' {
        Some(Sym::LBracket)
    } else if c == ']' {
        Some(Sym::RBracket)
    } else if c == ',' {
        Some(Sym::Comma)
    } else if c == ';' {
        Some(Sym::Semi)
    } else if c == '.' {
        Some(Sym::Dot)
    } else if c == '*' {
        Some(Sym::Star)
    } else if c == '+' {
        Some(Sym::Plus)
    } else if c == '-' {
        Some(Sym::Minus)
    } else if c == '/' {
        Some(Sym::Slash)
    } else if c == '%' {
        Some(Sym::Percent)
    } else if c == '?' {
        Some(Sym::Param)
    } else if c == '=' {
        Some(Sym::Eq)
    } else {
        None
    }
}

fn lex_symbol(s: &[char], i: usize) -> (r: Option<(Sym, usize)>)
    requires
        i < s.len(),
    ensures
        match symbol_at(s@, i as int) {
            Some((x, n)) => r matches Some(p) && p.0 == x && p.1 == i + n,
            None => r is None,
        },
{
    let c = s[i];
    let one = i + 1 < s.len();
    let two = i < s.len() - 1 && i + 1 < s.len() - 1;
    if c == '<' {
        if one && s[i + 1] == '-' && two && s[i + 2] == '>' {
            Some((Sym::VecL2, i + 3))
        } else if one && s[i + 1] == '=' && two && s[i + 2] == '>' {
            Some((Sym::VecCosine, i + 3))
        } else if one && s[i + 1] == '#' && two && s[i + 2] == '>' {
            Some((Sym::VecIp, i + 3))
        } else if one && s[i + 1] == '=' {
            Some((Sym::Le, i + 2))
        } else if one && s[i + 1] == '>' {
            Some((Sym::Ne, i + 2))
        } else {
            Some((Sym::Lt, i + 1))
        }
    } else if c == '>' {
        if one && s[i + 1] == '=' {
            Some((Sym::Ge, i + 2))
        } else {
            Some((Sym::Gt, i + 1))
        }
    } else if c == '!' && one && s[i + 1] == '=' {
        Some((Sym::Ne, i + 2))
    } else if c == '|' && one && s[i + 1] == '|' {
        Some((Sym::Concat, i + 2))
    } else if c == ':' && one && s[i + 1] == ':' {
        Some((Sym::DColon, i + 2))
    } else if c == '-' && one && s[i + 1] == '>' && two && s[i + 2] == '>' {
        Some((Sym::ArrowText, i + 3))
    } else if c == '-' && one && s[i + 1] == '>' {
        Some((Sym::Arrow, i + 2))
    } else {
        match simple_token(c) {
            Some(x) => Some((x, i + 1)),
            None => None,
        }
    }
}

fn end_of_word(s: &[char], from: usize) -> (r: usize)
    requires
        from <= s.len(),
    ensures
        r == word_end(s@, from as int),
        from <= r <= s.len(),
{
    let mut i: usize = from;
    while i < s.len() && word_char(s[i])
        invariant
            from <= i <= s.len(),
            word_end(s@, i as int) == word_end(s@, from as int),
        decreases s.len() - i,
    {
        i += 1;
    }
    i
}

fn end_of_digits(s: &[char], from: usize) -> (r: usize)
    requires
        from <= s.len(),
    ensures
        r == digits_end(s@, from as int),
        from <= r <= s.len(),
{
    let mut i: usize = from;
    while i < s.len() && digit(s[i])
        invariant
            from <= i <= s.len(),
            digits_end(s@, i as int) == digits_end(s@, from as int),
        decreases s.len() - i,
    {
        i += 1;
    }
    i
}

fn end_of_number(s: &[char], from: usize) -> (r: usize)
    requires
        from < s.len(),
        is_digit(s@[from as int]),
    ensures
        r == number_end(s@, from as int),
        from < r <= s.len(),
{
    let mut i: usize = from + 1;
    assert(mantissa_end(s@, from as int) == mantissa_end(s@, from + 1));
    while i < s.len() && (digit(s[i]) || s[i] == '.')
        invariant
            from < i <= s.len(),
            mantissa_end(s@, i as int) == mantissa_end(s@, from as int),
        decreases s.len() - i,
    {
        i += 1;
    }
    if is_at(s, i, 'e') || is_at(s, i, 'E') {
        if is_at(s, i + 1, '+') || is_at(s, i + 1, '-') {
            end_of_digits(s, i + 2)
        } else {
            end_of_digits(s, i + 1)
        }
    } else {
        i
    }
}

/// Whether a text is made of digits alone.
fn only_digits(text: &[char]) -> (r: bool)
    ensures
        r == all_plain(text@),
{
    let mut i: usize = 0;
    while i < text.len()
        invariant
            i <= text.len(),
            forall|k: int| 0 <= k < i ==> is_digit(#[trigger] text@[k]),
        decreases text.len() - i,
    {
        if !digit(text[i]) {
            assert(!is_digit(text@[i as int]));
            return false;
        }
        i += 1;
    }
    true
}

pub open spec fn tok_result(r: Result<Tok, Stop>) -> Result<TokV, StopV> {
    match r {
        Ok(t) => Ok(t@),
        Err(s) => Err(s@),
    }
}

fn lex_number(text: &[char], reals: &Reals) -> (r: Result<Tok, Stop>)
    ensures
        tok_result(r) == number_token(reals@, text@),
{
    if only_digits(text) {
        match parse_i64(text) {
            Some(n) => {
                return Ok(Tok::Int(n));
            },
            None => {},
        }
    }
    match reals.number(text) {
        Err(e) => Err(e),
        Ok(Some(b)) => Ok(Tok::Real(b)),
        Ok(None) => Err(sql_stop(owned("bad number"))),
    }
}

pub open spec fn step_result(r: Result<(Tok, usize), Stop>) -> Result<StepV, StopV> {
    match r {
        Ok((t, n)) => Ok(StepV { tok: t@, next: n as int }),
        Err(s) => Err(s@),
    }
}

fn lex_string(s: &[char], from: usize) -> (r: Result<(Tok, usize), Stop>)
    requires
        0 < from <= s.len(),
    ensures
        step_result(r) == string_from(s@, from as int, Seq::empty()),
        r matches Ok(p) ==> from <= p.1 <= s.len(),
{
    let mut out: Vec<char> = Vec::new();
    let mut i: usize = from;
    while i < s.len()
        invariant
            0 < from <= i <= s.len(),
            string_from(s@, i as int, out@) == string_from(s@, from as int, Seq::empty()),
        decreases s.len() - i,
    {
        if s[i] == '\'' {
            if is_at(s, i + 1, '\'') {
                out.push('\'');
                i += 2;
            } else {
                return Ok((Tok::Str(from_chars(&out)), i + 1));
            }
        } else {
            push_byte_chars(s[i], &mut out);
            i += 1;
        }
    }
    Err(sql_stop(owned("unterminated string literal")))
}

fn find_char(s: &[char], c: char, from: usize) -> (r: Option<usize>)
    requires
        from <= s.len(),
    ensures
        match r {
            Some(i) => next_at(s@, c, from as int) == Some(i as int) && from <= i < s.len(),
            None => next_at(s@, c, from as int) is None,
        },
{
    let mut i: usize = from;
    while i < s.len()
        invariant
            from <= i <= s.len(),
            next_at(s@, c, i as int) == next_at(s@, c, from as int),
        decreases s.len() - i,
    {
        if s[i] == c {
            return Some(i);
        }
        i += 1;
    }
    None
}

fn lex_param(text: &[char]) -> (r: Result<usize, Stop>)
    ensures
        param_number(text@) == (match r {
            Ok(n) => Ok(n),
            Err(s) => Err(s@),
        }),
{
    match parse_i64(text) {
        Some(n) => if 0 <= n && n as u64 <= usize::MAX as u64 {
            Ok(n as usize)
        } else {
            Err(sql_stop(owned("bad parameter number")))
        },
        None => Err(sql_stop(owned("bad parameter number"))),
    }
}

fn lex_token(s: &[char], reals: &Reals, i: usize) -> (r: Result<(Tok, usize), Stop>)
    requires
        i < s.len(),
    ensures
        step_result(r) == token_at(s@, reals@, i as int),
        r matches Ok(p) ==> i < p.1 <= s.len(),
{
    let c = s[i];
    match lex_symbol(s, i) {
        Some((x, n)) => {
            return Ok((Tok::Sym(x), n));
        },
        None => {},
    }
    if c == '!' {
        Err(sql_stop(owned("unexpected '!'")))
    } else if c == '|' {
        Err(sql_stop(owned("unexpected '|' (bitwise OR is unsupported)")))
    } else if c == ':' {
        let e: usize = end_of_word(s, i + 1);
        if e > i + 1 {
            Ok((Tok::NamedParam(from_chars(&slice_chars(s, i + 1, e))), e))
        } else {
            Err(sql_stop(owned("unexpected ':'")))
        }
    } else if c == '$' {
        let e: usize = end_of_digits(s, i + 1);
        if e > i + 1 {
            match lex_param(&slice_chars(s, i + 1, e)) {
                Ok(n) => Ok((Tok::NumParam(n), e)),
                Err(x) => Err(x),
            }
        } else {
            Err(sql_stop(owned("unexpected '$'")))
        }
    } else if c == '\'' {
        lex_string(s, i + 1)
    } else if c == '"' || c == '`' {
        match find_char(s, c, i + 1) {
            Some(e) => Ok((Tok::Word(from_chars(&slice_chars(s, i + 1, e))), e + 1)),
            None => Err(sql_stop(owned("unterminated quoted identifier"))),
        }
    } else if digit(c) {
        let e: usize = end_of_number(s, i);
        match lex_number(&slice_chars(s, i, e), reals) {
            Ok(t) => Ok((t, e)),
            Err(x) => Err(x),
        }
    } else if c == '_' || alpha(c) {
        let e: usize = end_of_word(s, i);
        assert(word_end(s@, i as int) == word_end(s@, i + 1));
        proof {
            lemma_word_end(s@, i + 1);
        }
        Ok((Tok::Word(from_chars(&slice_chars(s, i, e))), e))
    } else {
        let mut b: Vec<char> = Vec::new();
        push_byte_chars(c, &mut b);
        assert(b@ =~= byte_chars(c));
        let first = slice_chars(&b, 0, 1);
        assert(first@ =~= seq![byte_chars(c)[0]]);
        let shown = from_chars(&first);
        Err(sql_stop(concat3("unexpected character '", &shown, "'")))
    }
}

proof fn lemma_word_end(s: Seq<char>, i: int)
    ensures
        word_end(s, i) >= i,
    decreases s.len() - i,
{
    if 0 <= i < s.len() && in_word(s[i]) {
        lemma_word_end(s, i + 1);
    }
}

pub open spec fn toks_result(r: Result<Vec<Tok>, Stop>) -> Result<Seq<TokV>, StopV> {
    match r {
        Ok(v) => Ok(toks_view(v@)),
        Err(s) => Err(s@),
    }
}

/// `toks` ends with the end token, and holds it nowhere else.
pub open spec fn ends_well(toks: Seq<TokV>) -> bool {
    &&& toks.len() > 0
    &&& toks.last() == TokV::Sym(Sym::Eof)
    &&& forall|i: int|
        0 <= i < toks.len() - 1 ==> #[trigger] toks[i] != TokV::Sym(Sym::Eof)
}

/// Split a statement into tokens.
pub fn lex(sql: &str, reals: &Reals) -> (r: Result<Vec<Tok>, Stop>)
    ensures
        toks_result(r) == lexed(sql@, reals@),
        r matches Ok(v) ==> ends_well(toks_view(v@)),
{
    let s = to_chars(sql);
    let mut out: Vec<Tok> = Vec::new();
    assert(toks_view(out@) =~= Seq::<TokV>::empty());
    let mut i: usize = 0;
    while i < s.len()
        invariant
            i <= s.len(),
            s@ == sql@,
            forall|k: int| 0 <= k < out.len() ==> (#[trigger] out@[k])@ != TokV::Sym(Sym::Eof),
            lexed_from(s@, reals@, i as int, toks_view(out@)) == lexed(sql@, reals@),
        decreases s.len() - i,
    {
        let c = s[i];
        if blank(c) {
            i += 1;
        } else if c == '-' && is_at(&s, i + 1, '-') {
            let from: usize = i;
            i += 1;
            assert(line_end(s@, from as int) == line_end(s@, from + 1));
            while i < s.len() && s[i] != '\n'
                invariant
                    from < i <= s.len(),
                    line_end(s@, i as int) == line_end(s@, from as int),
                decreases s.len() - i,
            {
                i += 1;
            }
        } else {
            match lex_token(&s, reals, i) {
                Err(x) => {
                    return Err(x);
                },
                Ok((t, n)) => {
                    let ghost before = toks_view(out@);
                    let ghost tv = t@;
                    out.push(t);
                    assert(toks_view(out@) =~= before.push(tv));
                    proof {
                        lemma_not_eof(s@, reals@, i as int);
                    }
                    i = n;
                },
            }
        }
    }
    let ghost before = toks_view(out@);
    let ghost n = out.len();
    out.push(Tok::Sym(Sym::Eof));
    assert(toks_view(out@) =~= before.push(TokV::Sym(Sym::Eof)));
    assert(ends_well(toks_view(out@))) by {
        let v = toks_view(out@);
        assert forall|k: int| 0 <= k < v.len() - 1 implies #[trigger] v[k] != TokV::Sym(
            Sym::Eof,
        ) by {
            assert(v[k] == out@[k]@);
        }
    }
    Ok(out)
}

proof fn lemma_string_tok(s: Seq<char>, i: int, acc: Seq<char>)
    ensures
        string_from(s, i, acc) matches Ok(st) ==> st.tok is Str,
    decreases s.len() - i,
{
    if 0 <= i < s.len() {
        if s[i] == '\'' {
            if at(s, i + 1, '\'') {
                lemma_string_tok(s, i + 2, acc.push('\''));
            }
        } else {
            lemma_string_tok(s, i + 1, acc + byte_chars(s[i]));
        }
    }
}

proof fn lemma_not_eof(s: Seq<char>, t: RealsV, i: int)
    ensures
        token_at(s, t, i) matches Ok(st) ==> st.tok != TokV::Sym(Sym::Eof),
{
    lemma_string_tok(s, i + 1, Seq::empty());
}

// ---- how tokens are written ----------------------------------------------------------------------

pub open spec fn symbol_name(s: Sym) -> Seq<char> {
    match s {
        Sym::Param => "Param"@,
        Sym::LParen => "LParen"@,
        Sym::RParen => "RParen"@,
        Sym::LBracket => "LBracket"@,
        Sym::RBracket => "RBracket"@,
        Sym::Comma => "Comma"@,
        Sym::Semi => "Semi"@,
        Sym::DColon => "DColon"@,
        Sym::Dot => "Dot"@,
        Sym::Star => "Star"@,
        Sym::Eq => "Eq"@,
        Sym::Ne => "Ne"@,
        Sym::Lt => "Lt"@,
        Sym::Le => "Le"@,
        Sym::Gt => "Gt"@,
        Sym::Ge => "Ge"@,
        Sym::Plus => "Plus"@,
        Sym::Minus => "Minus"@,
        Sym::Slash => "Slash"@,
        Sym::Percent => "Percent"@,
        Sym::Concat => "Concat"@,
        Sym::Arrow => "Arrow"@,
        Sym::ArrowText => "ArrowText"@,
        Sym::VecL2 => "VecL2"@,
        Sym::VecCosine => "VecCosine"@,
        Sym::VecIp => "VecIp"@,
        Sym::Eof => "Eof"@,
    }
}

/// A token as messages write it.
pub open spec fn token_name(t: RealsV, k: TokV) -> Result<Seq<char>, StopV> {
    match k {
        TokV::Word(w) => Ok("Word("@ + debug_text(w) + ")"@),
        TokV::Int(n) => Ok("Int("@ + int_text(n as int) + ")"@),
        TokV::Real(b) => match shown(t, AskV::Spell(b)) {
            Ok(s) => Ok("Real("@ + s + ")"@),
            Err(e) => Err(e),
        },
        TokV::Str(s) => Ok("Str("@ + debug_text(s) + ")"@),
        TokV::NumParam(n) => Ok("NumParam("@ + nat_text(n as nat) + ")"@),
        TokV::NamedParam(w) => Ok("NamedParam("@ + debug_text(w) + ")"@),
        TokV::Sym(s) => Ok(symbol_name(s)),
    }
}

pub open spec fn symbol_text(s: Sym) -> Seq<char> {
    match s {
        Sym::Param => "?"@,
        Sym::LParen => "("@,
        Sym::RParen => ")"@,
        Sym::LBracket => "["@,
        Sym::RBracket => "]"@,
        Sym::Comma => ","@,
        Sym::Semi => ";"@,
        Sym::DColon => "::"@,
        Sym::Dot => "."@,
        Sym::Star => "*"@,
        Sym::Eq => "="@,
        Sym::Ne => "<>"@,
        Sym::Lt => "<"@,
        Sym::Le => "<="@,
        Sym::Gt => ">"@,
        Sym::Ge => ">="@,
        Sym::Plus => "+"@,
        Sym::Minus => "-"@,
        Sym::Slash => "/"@,
        Sym::Percent => "%"@,
        Sym::Concat => "||"@,
        Sym::Arrow => "->"@,
        Sym::ArrowText => "->>"@,
        Sym::VecL2 => "<->"@,
        Sym::VecCosine => "<=>"@,
        Sym::VecIp => "<#>"@,
        Sym::Eof => Seq::empty(),
    }
}

/// A text with each quote doubled, from `i` on.
pub open spec fn quotes_doubled(s: Seq<char>, i: int, acc: Seq<char>) -> Seq<char>
    decreases s.len() - i,
{
    if i < 0 || i >= s.len() {
        acc
    } else if s[i] == '\'' {
        quotes_doubled(s, i + 1, acc.push('\'').push('\''))
    } else {
        quotes_doubled(s, i + 1, acc.push(s[i]))
    }
}

/// Whether a name needs no quotes.
pub open spec fn stands_bare(w: Seq<char>) -> bool {
    &&& w.len() > 0
    &&& w[0] == '_' || is_alpha(w[0])
    &&& forall|i: int| 0 <= i < w.len() ==> in_word(#[trigger] w[i])
}

/// A name, in quotes where it needs them, and in those that it does not hold.
pub open spec fn word_text(w: Seq<char>) -> Seq<char> {
    if stands_bare(w) {
        w
    } else if !w.contains('"') {
        "\""@ + w + "\""@
    } else {
        "`"@ + w + "`"@
    }
}

/// A number with a point or an exponent, so that it does not read as an integer.
pub open spec fn pointed(x: Seq<char>) -> Seq<char> {
    if all_plain(x) {
        x + ".0"@
    } else {
        x
    }
}

/// A real as it is written. What is beyond all of them has no digits of its own.
pub open spec fn real_literal(t: RealsV, b: u64) -> Result<Seq<char>, StopV> {
    if b == INF_BITS {
        Ok("1e999"@)
    } else {
        match shown(t, AskV::Show(b)) {
            Err(e) => Err(e),
            Ok(x) => Ok(pointed(x)),
        }
    }
}

/// The number that `w` characters from `i` on stand for as the bytes of one character,
/// and `w`.
pub open spec fn wide_at(s: Seq<char>, i: int) -> (int, int) {
    let a = s[i] as int;
    if 192 <= a < 224 && i + 1 < s.len() {
        ((a - 192) * 64 + (s[i + 1] as int - 128), 2)
    } else if 224 <= a < 240 && i + 2 < s.len() {
        ((a - 224) * 4096 + (s[i + 1] as int - 128) * 64 + (s[i + 2] as int - 128), 3)
    } else if 240 <= a < 248 && i + 3 < s.len() {
        (
            (a - 240) * 262144 + (s[i + 1] as int - 128) * 4096 + (s[i + 2] as int - 128) * 64 + (
            s[i + 3] as int - 128),
            4,
        )
    } else {
        (a, 1)
    }
}

pub open spec fn is_scalar(n: int) -> bool {
    0 <= n <= 0xD7FF || 0xE000 <= n <= 0x10FFFF
}

/// The text from `i` on with the bytes of each character put together again.
pub open spec fn rejoined(s: Seq<char>, i: int, acc: Seq<char>) -> Seq<char>
    decreases s.len() - i,
{
    if i < 0 || i >= s.len() {
        acc
    } else {
        let (n, w) = wide_at(s, i);
        if w > 1 && is_scalar(n) {
            rejoined(s, i + w, acc.push(n as char))
        } else {
            rejoined(s, i + 1, acc.push(s[i]))
        }
    }
}

/// A string literal as it stood in the statement.
pub open spec fn string_text(s: Seq<char>) -> Seq<char> {
    "'"@ + quotes_doubled(rejoined(s, 0, Seq::empty()), 0, Seq::empty()) + "'"@
}

/// A token as a statement writes it.
pub open spec fn token_text(t: RealsV, k: TokV) -> Result<Seq<char>, StopV> {
    match k {
        TokV::Word(w) => Ok(word_text(w)),
        TokV::Int(n) => Ok(int_text(n as int)),
        TokV::Real(b) => real_literal(t, b),
        TokV::Str(s) => Ok(string_text(s)),
        TokV::NumParam(n) => Ok("$"@ + nat_text(n as nat)),
        TokV::NamedParam(w) => Ok(":"@ + w),
        TokV::Sym(s) => Ok(symbol_text(s)),
    }
}

/// Whether a blank goes before the token at `i` of a written list: none before a
/// comma or closing parenthesis, none behind an opening one, none around a cast.
pub open spec fn spaced(toks: Seq<TokV>, from: int, i: int, tight: bool) -> bool {
    i > from && toks[i] != TokV::Sym(Sym::Comma) && toks[i] != TokV::Sym(Sym::RParen) && toks[i]
        != TokV::Sym(Sym::DColon) && toks[i - 1] != TokV::Sym(Sym::LParen) && toks[i - 1]
        != TokV::Sym(Sym::DColon) && !(tight && closed_up(toks[i - 1], toks[i]))
}

/// Tokens that a tight text writes without a space: those of a dotted name, and a
/// name with the parenthesis that opens its arguments.
pub open spec fn closed_up(a: TokV, b: TokV) -> bool {
    a == TokV::Sym(Sym::Dot) || b == TokV::Sym(Sym::Dot) || (a is Word && b == TokV::Sym(
        Sym::LParen,
    ))
}

/// The tokens from `i` to `to` as a statement writes them, behind `acc`.
pub open spec fn written_from(
    t: RealsV,
    toks: Seq<TokV>,
    from: int,
    to: int,
    i: int,
    tight: bool,
    acc: Seq<char>,
) -> Result<Seq<char>, StopV>
    decreases to - i,
{
    if i >= to {
        Ok(acc)
    } else {
        match token_text(t, toks[i]) {
            Err(e) => Err(e),
            Ok(x) => written_from(
                t,
                toks,
                from,
                to,
                i + 1,
                tight,
                if spaced(toks, from, i, tight) {
                    acc.push(' ') + x
                } else {
                    acc + x
                },
            ),
        }
    }
}

fn name_of_symbol(s: Sym) -> (r: &'static str)
    ensures
        r@ == symbol_name(s),
{
    match s {
        Sym::Param => "Param",
        Sym::LParen => "LParen",
        Sym::RParen => "RParen",
        Sym::LBracket => "LBracket",
        Sym::RBracket => "RBracket",
        Sym::Comma => "Comma",
        Sym::Semi => "Semi",
        Sym::DColon => "DColon",
        Sym::Dot => "Dot",
        Sym::Star => "Star",
        Sym::Eq => "Eq",
        Sym::Ne => "Ne",
        Sym::Lt => "Lt",
        Sym::Le => "Le",
        Sym::Gt => "Gt",
        Sym::Ge => "Ge",
        Sym::Plus => "Plus",
        Sym::Minus => "Minus",
        Sym::Slash => "Slash",
        Sym::Percent => "Percent",
        Sym::Concat => "Concat",
        Sym::Arrow => "Arrow",
        Sym::ArrowText => "ArrowText",
        Sym::VecL2 => "VecL2",
        Sym::VecCosine => "VecCosine",
        Sym::VecIp => "VecIp",
        Sym::Eof => "Eof",
    }
}

fn text_of_symbol(s: Sym) -> (r: &'static str)
    ensures
        r@ == symbol_text(s),
{
    proof {
        reveal_strlit("");
    }
    match s {
        Sym::Param => "?",
        Sym::LParen => "(",
        Sym::RParen => ")",
        Sym::LBracket => "[",
        Sym::RBracket => "]",
        Sym::Comma => ",",
        Sym::Semi => ";",
        Sym::DColon => "::",
        Sym::Dot => ".",
        Sym::Star => "*",
        Sym::Eq => "=",
        Sym::Ne => "<>",
        Sym::Lt => "<",
        Sym::Le => "<=",
        Sym::Gt => ">",
        Sym::Ge => ">=",
        Sym::Plus => "+",
        Sym::Minus => "-",
        Sym::Slash => "/",
        Sym::Percent => "%",
        Sym::Concat => "||",
        Sym::Arrow => "->",
        Sym::ArrowText => "->>",
        Sym::VecL2 => "<->",
        Sym::VecCosine => "<=>",
        Sym::VecIp => "<#>",
        Sym::Eof => "",
    }
}

pub open spec fn string_result(r: Result<String, Stop>) -> Result<Seq<char>, StopV> {
    match r {
        Ok(s) => Ok(s@),
        Err(s) => Err(s@),
    }
}

impl Tok {
    /// The token as messages write it.
    pub fn name(&self, reals: &Reals) -> (r: Result<String, Stop>)
        ensures
            string_result(r) == token_name(reals@, self@),
    {
        match self {
            Tok::Word(w) => Ok(concat3("Word(", &debug_string(w), ")")),
            Tok::Int(n) => Ok(concat3("Int(", &int_string(*n), ")")),
            Tok::Real(b) => match reals.show(Ask::Spell(*b)) {
                Ok(s) => Ok(concat3("Real(", &s, ")")),
                Err(e) => Err(e),
            },
            Tok::Str(s) => Ok(concat3("Str(", &debug_string(s), ")")),
            Tok::NumParam(n) => Ok(concat3("NumParam(", &nat_string(*n as u64), ")")),
            Tok::NamedParam(w) => Ok(concat3("NamedParam(", &debug_string(w), ")")),
            Tok::Sym(s) => Ok(owned(name_of_symbol(*s))),
        }
    }

    /// The token as a statement writes it.
    pub fn text(&self, reals: &Reals) -> (r: Result<String, Stop>)
        ensures
            string_result(r) == token_text(reals@, self@),
    {
        match self {
            Tok::Word(w) => Ok(quote_word(w)),
            Tok::Int(n) => Ok(int_string(*n)),
            Tok::Real(b) => write_real(*b, reals),
            Tok::Str(s) => {
                let q = double_quotes(&rejoin(s));
                Ok(concat3("'", &q, "'"))
            },
            Tok::NumParam(n) => Ok(crate::text::concat2("$", &nat_string(*n as u64))),
            Tok::NamedParam(w) => Ok(crate::text::concat2(":", w)),
            Tok::Sym(s) => Ok(owned(text_of_symbol(*s))),
        }
    }

    pub fn is_sym(&self, s: Sym) -> (r: bool)
        ensures
            r == (self@ == TokV::Sym(s)),
    {
        match self {
            Tok::Sym(x) => *x == s,
            _ => false,
        }
    }
}

fn is_bare(w: &[char]) -> (r: bool)
    ensures
        r == stands_bare(w@),
{
    if w.len() == 0 || !(w[0] == '_' || alpha(w[0])) {
        return false;
    }
    let mut i: usize = 0;
    while i < w.len()
        invariant
            i <= w.len(),
            forall|k: int| 0 <= k < i ==> in_word(#[trigger] w@[k]),
        decreases w.len() - i,
    {
        if !word_char(w[i]) {
            return false;
        }
        i += 1;
    }
    true
}

fn quote_word(w: &str) -> (r: String)
    ensures
        r@ == word_text(w@),
{
    let cs = to_chars(w);
    if is_bare(&cs) {
        return owned(w);
    }
    let mut i: usize = 0;
    while i < cs.len()
        invariant
            i <= cs.len(),
            cs@ == w@,
            !stands_bare(w@),
            forall|k: int| 0 <= k < i ==> #[trigger] cs@[k] != '"',
        decreases cs.len() - i,
    {
        if cs[i] == '"' {
            assert(w@.contains('"'));
            return concat3("`", w, "`");
        }
        i += 1;
    }
    concat3("\"", w, "\"")
}

fn write_real(b: u64, reals: &Reals) -> (r: Result<String, Stop>)
    ensures
        string_result(r) == real_literal(reals@, b),
{
    if b == INF_BITS {
        return Ok(owned("1e999"));
    }
    let x = reals.show(Ask::Show(b))?;
    let cs = to_chars(&x);
    let mut i: usize = 0;
    while i < cs.len()
        invariant
            i <= cs.len(),
            cs@ == x@,
            b != INF_BITS,
            shown(reals@, AskV::Show(b)) == Ok::<Seq<char>, StopV>(x@),
            forall|k: int| 0 <= k < i ==> is_digit(#[trigger] cs@[k]),
        decreases cs.len() - i,
    {
        if !digit(cs[i]) {
            assert(!all_plain(x@));
            return Ok(x);
        }
        i += 1;
    }
    Ok(crate::text::concat2(&x, ".0"))
}

fn code_of(c: char) -> (r: i64)
    ensures
        r == c as int,
        0 <= r <= 0x10FFFF,
{
    c as u32 as i64
}

fn read_wide(s: &[char], i: usize) -> (r: (i64, usize))
    requires
        i < s.len(),
    ensures
        r.0 == wide_at(s@, i as int).0,
        r.1 == wide_at(s@, i as int).1,
        1 <= r.1 <= 4,
        i + r.1 <= s.len(),
{
    let n: usize = s.len() - i;
    let a: i64 = code_of(s[i]);
    if 192 <= a && a < 224 && n > 1 {
        ((a - 192) * 64 + (code_of(s[i + 1]) - 128), 2)
    } else if 224 <= a && a < 240 && n > 2 {
        ((a - 224) * 4096 + (code_of(s[i + 1]) - 128) * 64 + (code_of(s[i + 2]) - 128), 3)
    } else if 240 <= a && a < 248 && n > 3 {
        (
            (a - 240) * 262144 + (code_of(s[i + 1]) - 128) * 4096 + (code_of(s[i + 2]) - 128) * 64 + (
            code_of(s[i + 3]) - 128),
            4,
        )
    } else {
        (a, 1)
    }
}

fn rejoin(s: &str) -> (r: String)
    ensures
        r@ == rejoined(s@, 0, Seq::empty()),
{
    let cs = to_chars(s);
    let mut out: Vec<char> = Vec::new();
    let mut i: usize = 0;
    while i < cs.len()
        invariant
            i <= cs.len(),
            cs@ == s@,
            rejoined(s@, i as int, out@) == rejoined(s@, 0, Seq::empty()),
        decreases cs.len() - i,
    {
        let (n, w) = read_wide(&cs, i);
        if w > 1 && 0 <= n && n <= 0x10FFFF {
            if let Some(c) = char::from_u32(n as u32) {
                out.push(c);
                i += w;
                continue;
            }
        }
        out.push(cs[i]);
        i += 1;
    }
    from_chars(&out)
}

fn double_quotes(s: &str) -> (r: String)
    ensures
        r@ == quotes_doubled(s@, 0, Seq::empty()),
{
    let cs = to_chars(s);
    let mut out: Vec<char> = Vec::new();
    let mut i: usize = 0;
    while i < cs.len()
        invariant
            i <= cs.len(),
            cs@ == s@,
            quotes_doubled(s@, i as int, out@) == quotes_doubled(s@, 0, Seq::empty()),
        decreases cs.len() - i,
    {
        if cs[i] == '\'' {
            out.push('\'');
            out.push('\'');
        } else {
            out.push(cs[i]);
        }
        i += 1;
    }
    from_chars(&out)
}

/// The tokens from `from` to `to` as a statement writes them.
fn is_word(t: &Tok) -> (r: bool)
    ensures
        r == (t@ is Word),
{
    match t {
        Tok::Word(_) => true,
        _ => false,
    }
}

pub fn render_tokens(toks: &Vec<Tok>, from: usize, to: usize, tight: bool, reals: &Reals) -> (r:
    Result<String, Stop>)
    requires
        from <= to <= toks.len(),
    ensures
        string_result(r) == written_from(
            reals@,
            toks_view(toks@),
            from as int,
            to as int,
            from as int,
            tight,
            Seq::empty(),
        ),
{
    let ghost tv = toks_view(toks@);
    let mut out: Vec<char> = Vec::new();
    let mut i: usize = from;
    while i < to
        invariant
            from <= i <= to <= toks.len(),
            tv == toks_view(toks@),
            written_from(reals@, tv, from as int, to as int, i as int, tight, out@)
                == written_from(
                reals@,
                tv,
                from as int,
                to as int,
                from as int,
                tight,
                Seq::empty(),
            ),
        decreases to - i,
    {
        assert(tv[i as int] == toks@[i as int]@);
        let space = if i > from {
            assert(tv[i - 1] == toks@[i - 1]@);
            !toks[i].is_sym(Sym::Comma) && !toks[i].is_sym(Sym::RParen) && !toks[i].is_sym(
                Sym::DColon,
            ) && !toks[i - 1].is_sym(Sym::LParen) && !toks[i - 1].is_sym(Sym::DColon) && !(tight
                && (toks[i - 1].is_sym(Sym::Dot) || toks[i].is_sym(Sym::Dot) || (is_word(
                &toks[i - 1],
            ) && toks[i].is_sym(Sym::LParen))))
        } else {
            false
        };
        match toks[i].text(reals) {
            Err(e) => {
                return Err(e);
            },
            Ok(x) => {
                let ghost before = out@;
                if space {
                    out.push(' ');
                }
                let ghost mid = out@;
                let mut cs = to_chars(&x);
                out.append(&mut cs);
                assert(out@ =~= mid + x@);
            },
        }
        i += 1;
    }
    Ok(from_chars(&out))
}

} // verus!
