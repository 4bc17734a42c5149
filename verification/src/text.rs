//! Text as sequences of characters: ASCII case folding, trimming, decimal
//! numbers, and the few `String` operations the rest of the engine builds on.
use vstd::prelude::*;


verus! {

/// `String::push` appends one character and leaves the rest alone.
pub assume_specification[ String::push ](s: &mut String, c: char)
    ensures
        final(s)@ == old(s)@.push(c),
;

/// The characters of `s`, in order.
pub fn to_chars(s: &str) -> (r: Vec<char>)
    ensures
        r@ == s@,
{
    let mut out: Vec<char> = Vec::new();
    for c in it: s.chars()
        invariant
            out@ == s@.take(it.index() as int),
            it.seq() == s@,
    {
        out.push(c);
        assert(s@.take(it.index() as int).push(c) =~= s@.take(it.index() + 1));
    }
    assert(s@.take(s@.len() as int) =~= s@);
    out
}

/// A string holding exactly the characters of `cs`.
pub fn from_chars(cs: &[char]) -> (r: String)
    ensures
        r@ == cs@,
{
    let mut out = String::new();
    let mut i: usize = 0;
    while i < cs.len()
        invariant
            i <= cs.len(),
            out@ == cs@.take(i as int),
        decreases cs.len() - i,
    {
        out.push(cs[i]);
        assert(cs@.take(i as int).push(cs@[i as int]) =~= cs@.take(i + 1));
        i += 1;
    }
    assert(cs@.take(i as int) =~= cs@);
    out
}

/// A string with the same characters as `s`.
pub fn owned(s: &str) -> (r: String)
    ensures
        r@ == s@,
{
    s.to_owned()
}

pub fn concat2(a: &str, b: &str) -> (r: String)
    ensures
        r@ == a@ + b@,
{
    let mut s = a.to_owned();
    s.append(b);
    s
}

pub fn concat3(a: &str, b: &str, c: &str) -> (r: String)
    ensures
        r@ == a@ + b@ + c@,
{
    let mut s = a.to_owned();
    s.append(b);
    s.append(c);
    s
}

pub fn concat4(a: &str, b: &str, c: &str, d: &str) -> (r: String)
    ensures
        r@ == a@ + b@ + c@ + d@,
{
    let mut s = a.to_owned();
    s.append(b);
    s.append(c);
    s.append(d);
    s
}

/// Whether two strings hold the same characters.
pub fn same(a: &str, b: &str) -> (r: bool)
    ensures
        r == (a@ == b@),
{
    let x = to_chars(a);
    let y = to_chars(b);
    same_chars(&x, &y)
}

pub fn same_chars(x: &[char], y: &[char]) -> (r: bool)
    ensures
        r == (x@ == y@),
{
    if x.len() != y.len() {
        return false;
    }
    let mut i: usize = 0;
    while i < x.len()
        invariant
            i <= x.len(),
            x.len() == y.len(),
            forall|k: int| 0 <= k < i ==> x@[k] == y@[k],
        decreases x.len() - i,
    {
        if x[i] != y[i] {
            return false;
        }
        i += 1;
    }
    assert(x@ =~= y@);
    true
}

/// ASCII lower case of one character; anything else stays as it is.
pub open spec fn lower_char(c: char) -> char {
    if 'A' <= c && c <= 'Z' {
        ((c as u32) + 32) as char
    } else {
        c
    }
}

/// ASCII upper case of one character; anything else stays as it is.
pub open spec fn upper_char(c: char) -> char {
    if 'a' <= c && c <= 'z' {
        ((c as u32) - 32) as char
    } else {
        c
    }
}

/// ASCII lower case of a whole text.
pub open spec fn lower_text(s: Seq<char>) -> Seq<char> {
    Seq::new(s.len(), |i: int| lower_char(s[i]))
}

/// ASCII upper case of a whole text.
pub open spec fn upper_text(s: Seq<char>) -> Seq<char> {
    Seq::new(s.len(), |i: int| upper_char(s[i]))
}

/// Equality that ignores ASCII case.
pub open spec fn same_name(a: Seq<char>, b: Seq<char>) -> bool {
    lower_text(a) == lower_text(b)
}

pub fn lower_of(c: char) -> (r: char)
    ensures
        r == lower_char(c),
{
    if 'A' <= c && c <= 'Z' {
        let b: u8 = (c as u8) + 32;
        b as char
    } else {
        c
    }
}

pub fn upper_of(c: char) -> (r: char)
    ensures
        r == upper_char(c),
{
    if 'a' <= c && c <= 'z' {
        let b: u8 = (c as u8) - 32;
        b as char
    } else {
        c
    }
}

/// The characters of `s` in ASCII lower case.
pub fn lower_chars(s: &str) -> (r: Vec<char>)
    ensures
        r@ == lower_text(s@),
{
    let cs = to_chars(s);
    let mut out: Vec<char> = Vec::new();
    let mut i: usize = 0;
    while i < cs.len()
        invariant
            i <= cs.len(),
            cs@ == s@,
            out@ == lower_text(s@).take(i as int),
        decreases cs.len() - i,
    {
        out.push(lower_of(cs[i]));
        assert(lower_text(s@).take(i as int).push(lower_text(s@)[i as int]) =~= lower_text(
            s@,
        ).take(i + 1));
        i += 1;
    }
    assert(lower_text(s@).take(i as int) =~= lower_text(s@));
    out
}

/// The characters of `s` in ASCII upper case.
pub fn upper_chars(s: &str) -> (r: Vec<char>)
    ensures
        r@ == upper_text(s@),
{
    let cs = to_chars(s);
    let mut out: Vec<char> = Vec::new();
    let mut i: usize = 0;
    while i < cs.len()
        invariant
            i <= cs.len(),
            cs@ == s@,
            out@ == upper_text(s@).take(i as int),
        decreases cs.len() - i,
    {
        out.push(upper_of(cs[i]));
        assert(upper_text(s@).take(i as int).push(upper_text(s@)[i as int]) =~= upper_text(
            s@,
        ).take(i + 1));
        i += 1;
    }
    assert(upper_text(s@).take(i as int) =~= upper_text(s@));
    out
}

/// Whether two names are equal up to ASCII case.
pub fn names_match(a: &str, b: &str) -> (r: bool)
    ensures
        r == same_name(a@, b@),
{
    let x = lower_chars(a);
    let y = lower_chars(b);
    same_chars(&x, &y)
}

/// Unicode `White_Space`: what trimming removes.
pub open spec fn is_space(c: char) -> bool {
    let n = c as u32;
    ||| 0x9 <= n <= 0xD
    ||| n == 0x20
    ||| n == 0x85
    ||| n == 0xA0
    ||| n == 0x1680
    ||| 0x2000 <= n <= 0x200A
    ||| n == 0x2028
    ||| n == 0x2029
    ||| n == 0x202F
    ||| n == 0x205F
    ||| n == 0x3000
}

pub fn space(c: char) -> (r: bool)
    ensures
        r == is_space(c),
{
    let n: u32 = c as u32;
    (0x9 <= n && n <= 0xD) || n == 0x20 || n == 0x85 || n == 0xA0 || n == 0x1680 || (0x2000 <= n
        && n <= 0x200A) || n == 0x2028 || n == 0x2029 || n == 0x202F || n == 0x205F || n == 0x3000
}

/// `s` without its leading white space.
pub open spec fn trim_left(s: Seq<char>) -> Seq<char>
    decreases s.len(),
{
    if s.len() > 0 && is_space(s[0]) {
        trim_left(s.drop_first())
    } else {
        s
    }
}

/// `s` without its trailing white space.
pub open spec fn trim_right(s: Seq<char>) -> Seq<char>
    decreases s.len(),
{
    if s.len() > 0 && is_space(s.last()) {
        trim_right(s.drop_last())
    } else {
        s
    }
}

/// `s` without leading and trailing white space.
pub open spec fn trimmed(s: Seq<char>) -> Seq<char> {
    trim_right(trim_left(s))
}

pub fn slice_chars(s: &[char], from: usize, to: usize) -> (r: Vec<char>)
    requires
        from <= to <= s.len(),
    ensures
        r@ == s@.subrange(from as int, to as int),
{
    let mut out: Vec<char> = Vec::new();
    let mut i: usize = from;
    while i < to
        invariant
            from <= i <= to <= s.len(),
            out@ == s@.subrange(from as int, i as int),
        decreases to - i,
    {
        out.push(s[i]);
        assert(s@.subrange(from as int, i as int).push(s@[i as int]) =~= s@.subrange(
            from as int,
            i + 1,
        ));
        i += 1;
    }
    out
}

pub fn trim_left_chars(s: &[char]) -> (r: Vec<char>)
    ensures
        r@ == trim_left(s@),
{
    let mut i: usize = 0;
    assert(s@.subrange(0, s@.len() as int) =~= s@);
    while i < s.len() && space(s[i])
        invariant
            i <= s.len(),
            trim_left(s@.subrange(i as int, s@.len() as int)) == trim_left(s@),
        decreases s.len() - i,
    {
        assert(s@.subrange(i as int, s@.len() as int).drop_first() =~= s@.subrange(
            i + 1,
            s@.len() as int,
        ));
        i += 1;
    }
    slice_chars(s, i, s.len())
}

pub fn trim_right_chars(s: &[char]) -> (r: Vec<char>)
    ensures
        r@ == trim_right(s@),
{
    let mut n: usize = s.len();
    assert(s@.subrange(0, s@.len() as int) =~= s@);
    while n > 0 && space(s[n - 1])
        invariant
            n <= s.len(),
            trim_right(s@.subrange(0, n as int)) == trim_right(s@),
        decreases n,
    {
        assert(s@.subrange(0, n as int).drop_last() =~= s@.subrange(0, n - 1));
        n -= 1;
    }
    slice_chars(s, 0, n)
}

pub fn trim_chars(s: &[char]) -> (r: Vec<char>)
    ensures
        r@ == trimmed(s@),
{
    let t = trim_left_chars(s);
    trim_right_chars(&t)
}

/// Decimal digit value of a character.
pub open spec fn is_digit(c: char) -> bool {
    '0' <= c && c <= '9'
}

pub open spec fn digit_val(c: char) -> int {
    c as int - '0' as int
}

pub open spec fn all_digits(s: Seq<char>) -> bool {
    forall|i: int| 0 <= i < s.len() ==> is_digit(#[trigger] s[i])
}

/// The number that a run of digits denotes.
pub open spec fn digits_val(s: Seq<char>) -> nat
    decreases s.len(),
{
    if s.len() == 0 {
        0
    } else {
        (10 * digits_val(s.drop_last()) + digit_val(s.last())) as nat
    }
}

/// The integer a text denotes: an optional sign, then one or more digits.
pub open spec fn int_of_text(s: Seq<char>) -> Option<int> {
    if s.len() > 0 && (s[0] == '+' || s[0] == '-') {
        let body = s.drop_first();
        if body.len() > 0 && all_digits(body) {
            Some(
                if s[0] == '-' {
                    -(digits_val(body) as int)
                } else {
                    digits_val(body) as int
                },
            )
        } else {
            None
        }
    } else if s.len() > 0 && all_digits(s) {
        Some(digits_val(s) as int)
    } else {
        None
    }
}

/// `int_of_text` confined to the range of `i64`.
pub open spec fn i64_of_text(s: Seq<char>) -> Option<i64> {
    match int_of_text(s) {
        Some(n) => if i64::MIN <= n <= i64::MAX {
            Some(n as i64)
        } else {
            None
        },
        None => None,
    }
}

/// Parse a decimal `i64` the way `str::parse` does: an optional sign, digits
/// only, and no overflow.
pub fn parse_i64(s: &[char]) -> (r: Option<i64>)
    ensures
        r == i64_of_text(s@),
{
    let n = s.len();
    let mut i: usize = 0;
    let mut neg = false;
    if n > 0 && (s[0] == '+' || s[0] == '-') {
        neg = s[0] == '-';
        i = 1;
    }
    let start: usize = i;
    let ghost body = s@.subrange(start as int, s@.len() as int);
    proof {
        if start == 1 {
            assert(body =~= s@.drop_first());
        } else {
            assert(body =~= s@);
        }
    }
    if i == n {
        return None;
    }
    let mut acc: u64 = 0;
    let mut big = false;
    while i < n
        invariant
            start <= i <= n,
            n == s.len(),
            start <= 1,
            body == s@.subrange(start as int, s@.len() as int),
            forall|k: int| 0 <= k < i - start ==> is_digit(#[trigger] body[k]),
            !big ==> acc == digits_val(body.take(i - start)) && acc <= 9_223_372_036_854_775_808,
            big ==> digits_val(body.take(i - start)) > 9_223_372_036_854_775_808,
            start == 1 ==> body == s@.drop_first() && (s@[0] == '+' || s@[0] == '-'),
            start == 0 ==> body == s@ && !(s@[0] == '+' || s@[0] == '-'),
        decreases n - i,
    {
        let c = s[i];
        assert(body[i - start] == c);
        if !('0' <= c && c <= '9') {
            assert(!all_digits(body));
            return None;
        }
        let d: u64 = (c as u32 - 48) as u64;
        proof {
            assert(body.take(i - start + 1).drop_last() =~= body.take(i - start));
        }
        if !big {
            if acc > 922_337_203_685_477_580 || (acc == 922_337_203_685_477_580 && d > 8) {
                big = true;
            } else {
                acc = acc * 10 + d;
            }
        }
        i += 1;
    }
    assert(body.take(n - start) =~= body);
    assert(all_digits(body));
    if big {
        None
    } else if neg {
        if acc == 9_223_372_036_854_775_808 {
            Some(i64::MIN)
        } else {
            Some(-(acc as i64))
        }
    } else if acc <= 9_223_372_036_854_775_807 {
        Some(acc as i64)
    } else {
        None
    }
}

/// The character of a single decimal digit.
pub open spec fn digit_char(d: int) -> char {
    (d + '0' as int) as char
}

/// Decimal digits of a natural number, without leading zeros.
pub open spec fn nat_text(n: nat) -> Seq<char>
    decreases n,
{
    if n < 10 {
        seq![digit_char(n as int)]
    } else {
        nat_text(n / 10).push(digit_char((n % 10) as int))
    }
}

/// Decimal form of an integer, with a leading `-` when negative.
pub open spec fn int_text(i: int) -> Seq<char> {
    if i < 0 {
        seq!['-'] + nat_text((-i) as nat)
    } else {
        nat_text(i as nat)
    }
}

pub fn nat_chars(n: u64) -> (r: Vec<char>)
    ensures
        r@ == nat_text(n as nat),
    decreases n,
{
    let d: u8 = (n % 10) as u8;
    let c: char = (d + 48) as char;
    if n < 10 {
        let mut v: Vec<char> = Vec::new();
        v.push(c);
        assert(v@ =~= seq![digit_char(n as int)]);
        v
    } else {
        let mut v = nat_chars(n / 10);
        v.push(c);
        v
    }
}

/// `|i|` of an `i64`, which may exceed `i64::MAX` by one.
pub fn magnitude(i: i64) -> (r: u64)
    ensures
        r == (if i < 0 {
            -(i as int)
        } else {
            i as int
        }),
{
    if i == i64::MIN {
        9_223_372_036_854_775_808
    } else if i < 0 {
        (-i) as u64
    } else {
        i as u64
    }
}

pub fn int_chars(i: i64) -> (r: Vec<char>)
    ensures
        r@ == int_text(i as int),
{
    let mut digits = nat_chars(magnitude(i));
    if i < 0 {
        let mut v: Vec<char> = Vec::new();
        v.push('-');
        v.append(&mut digits);
        assert(v@ =~= int_text(i as int));
        v
    } else {
        digits
    }
}

/// The decimal text of an `i64`.
pub fn int_string(i: i64) -> (r: String)
    ensures
        r@ == int_text(i as int),
{
    let v = int_chars(i);
    from_chars(&v)
}

pub fn nat_string(n: u64) -> (r: String)
    ensures
        r@ == nat_text(n as nat),
{
    let v = nat_chars(n);
    from_chars(&v)
}

/// `k` copies of a character.
pub open spec fn repeated(c: char, k: nat) -> Seq<char> {
    Seq::new(k, |i: int| c)
}

/// Decimal form padded with zeros to `width` characters, the sign counted and
/// kept in front.
pub open spec fn padded_int(i: int, width: nat) -> Seq<char> {
    let digits = nat_text(if i < 0 {
        (-i) as nat
    } else {
        i as nat
    });
    let used = digits.len() + if i < 0 {
        1nat
    } else {
        0nat
    };
    let zeros = repeated('0', if used < width {
        (width - used) as nat
    } else {
        0
    });
    if i < 0 {
        seq!['-'] + zeros + digits
    } else {
        zeros + digits
    }
}

pub proof fn lemma_nat_text_len(n: nat)
    requires
        n <= u64::MAX,
    ensures
        1 <= nat_text(n).len() <= 20,
{
    reveal_with_fuel(nat_text, 21);
}

/// Append the zero-padded decimal form of `i` to `out`.
pub fn push_padded(out: &mut Vec<char>, i: i64, width: usize)
    requires
        width <= 100,
    ensures
        final(out)@ == old(out)@ + padded_int(i as int, width as nat),
{
    let mut digits = nat_chars(magnitude(i));
    proof {
        lemma_nat_text_len(magnitude_spec(i));
    }
    let mut used: usize = digits.len();
    if i < 0 {
        out.push('-');
        used += 1;
    }
    let ghost base = out@;
    let ghost total: nat = if used < width {
        (width - used) as nat
    } else {
        0
    };
    let mut k: usize = 0;
    assert(out@ =~= base + repeated('0', 0));
    while used < width
        invariant
            k <= total <= 100,
            used as int + (total - k) == (if total > 0 {
                width as int
            } else {
                used as int
            }),
            total == 0 ==> used >= width,
            out@ == base + repeated('0', k as nat),
            width <= 100,
        decreases width - used,
    {
        out.push('0');
        assert(out@ =~= base + repeated('0', (k + 1) as nat));
        used += 1;
        k += 1;
    }
    let ghost ds = digits@;
    out.append(&mut digits);
    assert(out@ =~= old(out)@ + padded_int(i as int, width as nat));
}

pub open spec fn magnitude_spec(i: i64) -> nat {
    if i < 0 {
        (-(i as int)) as nat
    } else {
        i as nat
    }
}

/// Whether `sub` occurs in `s` at `i`.
pub open spec fn occurs_at(s: Seq<char>, sub: Seq<char>, i: int) -> bool {
    0 <= i && i + sub.len() <= s.len() && s.subrange(i, i + sub.len()) == sub
}

/// Whether `sub` occurs in `s`.
pub open spec fn contains_text(s: Seq<char>, sub: Seq<char>) -> bool {
    exists|i: int| occurs_at(s, sub, i)
}

pub fn found_at(s: &[char], sub: &[char], i: usize) -> (r: bool)
    ensures
        r == occurs_at(s@, sub@, i as int),
{
    if s.len() < sub.len() || i > s.len() - sub.len() {
        return false;
    }
    let mut k: usize = 0;
    while k < sub.len()
        invariant
            k <= sub.len(),
            i + sub.len() <= s.len(),
            forall|j: int| 0 <= j < k ==> s@[i + j] == sub@[j],
        decreases sub.len() - k,
    {
        if s[i + k] != sub[k] {
            assert(s@.subrange(i as int, i + sub@.len())[k as int] == s@[i + k]);
            return false;
        }
        k += 1;
    }
    assert(s@.subrange(i as int, i + sub@.len()) =~= sub@);
    true
}

/// The first place at or after `from` where `sub` occurs in `s`.
pub fn find_from(s: &[char], sub: &[char], from: usize) -> (r: Option<usize>)
    requires
        from <= s.len(),
    ensures
        match r {
            Some(i) => from <= i && occurs_at(s@, sub@, i as int) && forall|j: int|
                from <= j < i ==> !occurs_at(s@, sub@, j),
            None => forall|j: int| from <= j ==> !occurs_at(s@, sub@, j),
        },
{
    let mut i: usize = from;
    while i < s.len()
        invariant
            from <= i <= s.len(),
            forall|j: int| from <= j < i ==> !occurs_at(s@, sub@, j),
        decreases s.len() - i,
    {
        if found_at(s, sub, i) {
            return Some(i);
        }
        i += 1;
    }
    if found_at(s, sub, i) {
        Some(i)
    } else {
        None
    }
}

/// Whether `sub` occurs anywhere in `s`.
pub fn has_text(s: &[char], sub: &str) -> (r: bool)
    ensures
        r == contains_text(s@, sub@),
{
    let needle = to_chars(sub);
    match find_from(s, &needle, 0) {
        Some(i) => true,
        None => false,
    }
}

/// Whether a run of characters spells out `word`.
pub fn spells(s: &[char], word: &str) -> (r: bool)
    ensures
        r == (s@ == word@),
{
    let w = to_chars(word);
    same_chars(s, &w)
}

/// `0` or `1`.
pub open spec fn bool_int(b: bool) -> i64 {
    if b {
        1
    } else {
        0
    }
}

pub fn int_of_bool(b: bool) -> (r: i64)
    ensures
        r == bool_int(b),
{
    if b {
        1
    } else {
        0
    }
}

} // verus!
