//! String and hexadecimal functions on character sequences.
use vstd::prelude::*;
use crate::text::{found_at, from_chars, occurs_at, slice_chars, to_chars};

verus! {

/// The Unicode lower case of a text, as `str::to_lowercase` gives it.
pub uninterp spec fn unicode_lower(s: Seq<char>) -> Seq<char>;

/// The Unicode upper case of a text, as `str::to_uppercase` gives it.
pub uninterp spec fn unicode_upper(s: Seq<char>) -> Seq<char>;

/// The quoted and escaped form of a text, as `{:?}` prints it.
pub uninterp spec fn debug_text(s: Seq<char>) -> Seq<char>;

/// `str::to_lowercase`: named, not described.
#[verifier::external_body]
fn std_lowercase(s: &str) -> (r: String)
    ensures
        r@ == unicode_lower(s@),
{
    s.to_lowercase()
}

/// `str::to_uppercase`: named, not described.
#[verifier::external_body]
fn std_uppercase(s: &str) -> (r: String)
    ensures
        r@ == unicode_upper(s@),
{
    s.to_uppercase()
}

/// `{:?}` of a `str`: named, not described.
#[verifier::external_body]
fn std_debug(s: &str) -> (r: String)
    ensures
        r@ == debug_text(s@),
{
    format!("{:?}", s)
}

/// The lower case of a text.
pub fn lowercase(s: &[char]) -> (r: Vec<char>)
    ensures
        r@ == unicode_lower(s@),
{
    let t = std_lowercase(&from_chars(s));
    to_chars(&t)
}

/// The upper case of a text.
pub fn uppercase(s: &[char]) -> (r: Vec<char>)
    ensures
        r@ == unicode_upper(s@),
{
    let t = std_uppercase(&from_chars(s));
    to_chars(&t)
}

/// A text in quotes, with what needs escaping escaped.
pub fn debug_string(s: &str) -> (r: String)
    ensures
        r@ == debug_text(s@),
{
    std_debug(s)
}

pub open spec fn reversed(s: Seq<char>) -> Seq<char> {
    Seq::new(s.len(), |i: int| s[s.len() - 1 - i])
}

pub fn reverse_chars(s: &[char]) -> (r: Vec<char>)
    ensures
        r@ == reversed(s@),
{
    let mut out: Vec<char> = Vec::new();
    let mut n: usize = s.len();
    while n > 0
        invariant
            n <= s.len(),
            out.len() == s.len() - n,
            forall|k: int| 0 <= k < out.len() ==> out@[k] == s@[s@.len() - 1 - k],
        decreases n,
    {
        n -= 1;
        out.push(s[n]);
    }
    assert(out@ =~= reversed(s@));
    out
}

/// `k` copies of a text, one behind the other.
pub open spec fn copies(s: Seq<char>, k: nat) -> Seq<char>
    decreases k,
{
    if k == 0 {
        Seq::empty()
    } else {
        copies(s, (k - 1) as nat) + s
    }
}

pub fn copy_chars(s: &[char], k: u64) -> (r: Vec<char>)
    ensures
        r@ == copies(s@, k as nat),
{
    let mut out: Vec<char> = Vec::new();
    let mut i: u64 = 0;
    assert(out@ =~= Seq::<char>::empty());
    while i < k
        invariant
            i <= k,
            out@ == copies(s@, i as nat),
        decreases k - i,
    {
        let mut one = slice_chars(s, 0, s.len());
        assert(one@ =~= s@);
        out.append(&mut one);
        i += 1;
    }
    out
}

/// `s` from `i` on with every occurrence of `f` (never empty) replaced by `t`,
/// behind `acc`.
pub open spec fn replaced_from(s: Seq<char>, f: Seq<char>, t: Seq<char>, i: int, acc: Seq<char>) -> Seq<
    char,
>
    decreases s.len() - i,
{
    if i >= s.len() {
        acc
    } else if f.len() > 0 && occurs_at(s, f, i) {
        replaced_from(s, f, t, i + f.len(), acc + t)
    } else {
        replaced_from(s, f, t, i + 1, acc.push(s[i]))
    }
}

/// `t` before every character from `i` on and at the end, behind `acc`.
pub open spec fn interspersed(s: Seq<char>, t: Seq<char>, i: int, acc: Seq<char>) -> Seq<char>
    decreases s.len() - i,
{
    if i >= s.len() {
        acc + t
    } else {
        interspersed(s, t, i + 1, (acc + t).push(s[i]))
    }
}

/// Replacement of every occurrence, left to right; an empty pattern occurs at
/// every boundary.
pub open spec fn replaced(s: Seq<char>, f: Seq<char>, t: Seq<char>) -> Seq<char> {
    if f.len() == 0 {
        interspersed(s, t, 0, Seq::empty())
    } else {
        replaced_from(s, f, t, 0, Seq::empty())
    }
}

pub fn replace_chars(s: &[char], f: &[char], t: &[char]) -> (r: Vec<char>)
    ensures
        r@ == replaced(s@, f@, t@),
{
    let mut out: Vec<char> = Vec::new();
    let mut i: usize = 0;
    assert(out@ =~= Seq::<char>::empty());
    if f.len() == 0 {
        while i < s.len()
            invariant
                i <= s.len(),
                interspersed(s@, t@, i as int, out@) == interspersed(s@, t@, 0, Seq::empty()),
            decreases s.len() - i,
        {
            let mut one = slice_chars(t, 0, t.len());
            assert(one@ =~= t@);
            out.append(&mut one);
            out.push(s[i]);
            i += 1;
        }
        let mut one = slice_chars(t, 0, t.len());
        assert(one@ =~= t@);
        out.append(&mut one);
        return out;
    }
    while i < s.len()
        invariant
            i <= s.len(),
            f.len() > 0,
            replaced_from(s@, f@, t@, i as int, out@) == replaced_from(
                s@,
                f@,
                t@,
                0,
                Seq::empty(),
            ),
        decreases s.len() - i,
    {
        if found_at(s, f, i) {
            let mut one = slice_chars(t, 0, t.len());
            assert(one@ =~= t@);
            out.append(&mut one);
            i += f.len();
        } else {
            out.push(s[i]);
            i += 1;
        }
    }
    out
}

/// The first place from `i` on where `n` occurs in `s`.
pub open spec fn occurrence(s: Seq<char>, n: Seq<char>, i: int) -> Option<int>
    decreases s.len() - i + 1,
{
    if i < 0 || i > s.len() {
        None
    } else if occurs_at(s, n, i) {
        Some(i)
    } else {
        occurrence(s, n, i + 1)
    }
}

pub fn find_occurrence(s: &[char], n: &[char]) -> (r: Option<usize>)
    ensures
        match r {
            Some(i) => occurrence(s@, n@, 0) == Some(i as int) && i <= s.len(),
            None => occurrence(s@, n@, 0) is None,
        },
{
    let mut i: usize = 0;
    while i < s.len()
        invariant
            i <= s.len(),
            occurrence(s@, n@, i as int) == occurrence(s@, n@, 0),
        decreases s.len() - i,
    {
        if found_at(s, n, i) {
            return Some(i);
        }
        i += 1;
    }
    if found_at(s, n, i) {
        Some(i)
    } else {
        assert(occurrence(s@, n@, i + 1) is None);
        None
    }
}

/// The characters that fill `k` places, taken round and round from `fill`.
pub open spec fn padding(fill: Seq<char>, k: nat) -> Seq<char> {
    Seq::new(k, |i: int| fill[i % fill.len() as int])
}

/// `s` brought to `len` characters: cut, or filled up in front or behind.
pub open spec fn padded(s: Seq<char>, len: nat, fill: Seq<char>, left: bool) -> Seq<char> {
    if s.len() >= len || fill.len() == 0 {
        if s.len() >= len {
            s.take(len as int)
        } else {
            s
        }
    } else if left {
        padding(fill, (len - s.len()) as nat) + s
    } else {
        s + padding(fill, (len - s.len()) as nat)
    }
}

pub fn pad_chars(s: &[char], len: u64, fill: &[char], left: bool) -> (r: Vec<char>)
    ensures
        r@ == padded(s@, len as nat, fill@, left),
{
    let have: u64 = s.len() as u64;
    if have >= len {
        let r = slice_chars(s, 0, len as usize);
        assert(r@ =~= s@.take(len as int));
        return r;
    }
    if fill.len() == 0 {
        let r = slice_chars(s, 0, s.len());
        assert(r@ =~= s@);
        return r;
    }
    let k: u64 = len - have;
    let mut pad: Vec<char> = Vec::new();
    let mut i: u64 = 0;
    let mut at: usize = 0;
    while i < k
        invariant
            i <= k,
            fill.len() > 0,
            pad@ == padding(fill@, i as nat),
            at == i as int % fill@.len() as int,
        decreases k - i,
    {
        pad.push(fill[at]);
        assert(pad@ =~= padding(fill@, (i + 1) as nat));
        proof {
            lemma_next_mod(i as int, fill@.len() as int);
        }
        at = if at + 1 == fill.len() {
            0
        } else {
            at + 1
        };
        i += 1;
    }
    let mut body = slice_chars(s, 0, s.len());
    assert(body@ =~= s@);
    if left {
        pad.append(&mut body);
        pad
    } else {
        body.append(&mut pad);
        body
    }
}

proof fn lemma_next_mod(i: int, n: int)
    requires
        i >= 0,
        n > 0,
    ensures
        (i + 1) % n == (if i % n + 1 == n {
            0
        } else {
            i % n + 1
        }),
{
    vstd::arithmetic::div_mod::lemma_fundamental_div_mod(i, n);
    let q = i / n;
    let r = i % n;
    if r + 1 == n {
        assert(i + 1 == (q + 1) * n + 0) by (nonlinear_arith)
            requires
                i == n * q + r,
                r + 1 == n,
        ;
        vstd::arithmetic::div_mod::lemma_fundamental_div_mod_converse(i + 1, n, q + 1, 0);
    } else {
        assert(i + 1 == q * n + (r + 1)) by (nonlinear_arith)
            requires
                i == n * q + r,
        ;
        vstd::arithmetic::div_mod::lemma_fundamental_div_mod_converse(i + 1, n, q, r + 1);
    }
}

// ---- hexadecimal ---------------------------------------------------------------------

pub open spec fn hex_upper(v: int) -> char {
    if v < 10 {
        (v + '0' as int) as char
    } else {
        (v - 10 + 'A' as int) as char
    }
}

/// Two upper-case hex digits per byte.
pub open spec fn hex_text(b: Seq<u8>) -> Seq<char>
    decreases b.len(),
{
    if b.len() == 0 {
        Seq::empty()
    } else {
        hex_text(b.drop_last()).push(hex_upper(b.last() as int / 16)).push(
            hex_upper(b.last() as int % 16),
        )
    }
}

fn hex_letter(v: u8) -> (r: char)
    requires
        v < 16,
    ensures
        r == hex_upper(v as int),
{
    if v < 10 {
        (v + 48) as char
    } else {
        (v - 10 + 65) as char
    }
}

/// Upper-case hex of a byte string.
pub fn to_hex(bytes: &[u8]) -> (r: Vec<char>)
    ensures
        r@ == hex_text(bytes@),
{
    let mut out: Vec<char> = Vec::new();
    let mut i: usize = 0;
    assert(bytes@.take(0) =~= Seq::<u8>::empty());
    assert(out@ =~= hex_text(bytes@.take(0)));
    while i < bytes.len()
        invariant
            i <= bytes.len(),
            out@ == hex_text(bytes@.take(i as int)),
        decreases bytes.len() - i,
    {
        assert(bytes@.take(i + 1).drop_last() =~= bytes@.take(i as int));
        out.push(hex_letter(bytes[i] / 16));
        out.push(hex_letter(bytes[i] % 16));
        i += 1;
    }
    assert(bytes@.take(i as int) =~= bytes@);
    out
}

/// Byte `i` of a number, least significant first.
pub open spec fn byte_of(n: u64, i: nat) -> u8 {
    ((n as nat / vstd::arithmetic::power2::pow2(8 * i)) % 256) as u8
}

pub open spec fn eight_bytes(n: u64) -> Seq<u8> {
    Seq::new(8, |i: int| byte_of(n, i as nat))
}

/// The sixteen bytes of a version-4 identifier made from two draws.
pub open spec fn uuid_bytes(a: u64, b: u64) -> Seq<u8> {
    let raw = eight_bytes(a) + eight_bytes(b);
    raw.update(6, (raw[6] % 16 + 0x40) as u8).update(8, (raw[8] % 64 + 0x80) as u8)
}

/// The text of an identifier: lower-case hex in groups of 8, 4, 4, 4 and 12.
pub open spec fn uuid_text(a: u64, b: u64) -> Seq<char> {
    let h = crate::text::lower_text(hex_text(uuid_bytes(a, b)));
    h.subrange(0, 8).push('-') + h.subrange(8, 12).push('-') + h.subrange(12, 16).push('-')
        + h.subrange(16, 20).push('-') + h.subrange(20, 32)
}

fn split_bytes(n: u64) -> (r: Vec<u8>)
    ensures
        r@ == eight_bytes(n),
{
    let mut out: Vec<u8> = Vec::new();
    let mut k: u64 = n;
    let mut i: u64 = 0;
    proof {
        vstd::arithmetic::power2::lemma2_to64();
    }
    assert(n as nat / vstd::arithmetic::power2::pow2(0) == n);
    while i < 8
        invariant
            i <= 8,
            out.len() == i,
            k == n as nat / vstd::arithmetic::power2::pow2((8 * i) as nat),
            forall|j: int| 0 <= j < i ==> out@[j] == byte_of(n, j as nat),
        decreases 8 - i,
    {
        out.push((k % 256) as u8);
        proof {
            let p = vstd::arithmetic::power2::pow2((8 * i) as nat);
            vstd::arithmetic::power2::lemma_pow2_pos((8 * i) as nat);
            vstd::arithmetic::power2::lemma_pow2_adds((8 * i) as nat, 8);
            vstd::arithmetic::power2::lemma2_to64();
            vstd::arithmetic::div_mod::lemma_div_denominator(n as int, p as int, 256);
        }
        k = k / 256;
        i += 1;
    }
    assert(out@ =~= eight_bytes(n));
    out
}

proof fn lemma_hex_len(b: Seq<u8>)
    ensures
        hex_text(b).len() == 2 * b.len(),
    decreases b.len(),
{
    if b.len() > 0 {
        lemma_hex_len(b.drop_last());
    }
}

/// A version-4 identifier from two random draws.
pub fn gen_uuid_v4(a: u64, b: u64) -> (r: Vec<char>)
    ensures
        r@ == uuid_text(a, b),
{
    let mut raw = split_bytes(a);
    let mut tail = split_bytes(b);
    raw.append(&mut tail);
    let six: u8 = raw[6] % 16 + 0x40;
    let eight: u8 = raw[8] % 64 + 0x80;
    raw.set(6, six);
    raw.set(8, eight);
    assert(raw@ =~= uuid_bytes(a, b));
    let hex = to_hex(&raw);
    let hs = from_chars(&hex);
    let h = crate::text::lower_chars(&hs);
    proof {
        lemma_hex_len(uuid_bytes(a, b));
    }
    let mut out = slice_chars(&h, 0, 8);
    out.push('-');
    let mut p1 = slice_chars(&h, 8, 12);
    out.append(&mut p1);
    out.push('-');
    let mut p2 = slice_chars(&h, 12, 16);
    out.append(&mut p2);
    out.push('-');
    let mut p3 = slice_chars(&h, 16, 20);
    out.append(&mut p3);
    out.push('-');
    let mut p4 = slice_chars(&h, 20, 32);
    out.append(&mut p4);
    assert(out@ =~= uuid_text(a, b));
    out
}

} // verus!
