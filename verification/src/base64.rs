//! Base64 with the standard alphabet and padding, for rendering blobs.
use vstd::prelude::*;
use vstd::arithmetic::div_mod::lemma_fundamental_div_mod_converse;
use crate::text::{from_chars, to_chars};

verus! {

/// The letter of a six-bit value.
pub open spec fn letter(v: int) -> char {
    if v < 26 {
        (v + 'A' as int) as char
    } else if v < 52 {
        (v - 26 + 'a' as int) as char
    } else if v < 62 {
        (v - 52 + '0' as int) as char
    } else if v == 62 {
        '+'
    } else {
        '/'
    }
}

/// The six-bit value of a letter.
pub open spec fn sextet(c: char) -> Option<int> {
    if 'A' <= c && c <= 'Z' {
        Some(c as int - 'A' as int)
    } else if 'a' <= c && c <= 'z' {
        Some(c as int - 'a' as int + 26)
    } else if '0' <= c && c <= '9' {
        Some(c as int - '0' as int + 52)
    } else if c == '+' {
        Some(62)
    } else if c == '/' {
        Some(63)
    } else {
        None
    }
}

/// Base64 of a byte string: three bytes make four letters, a short tail is
/// filled up with `=`.
pub open spec fn base64_text(d: Seq<u8>) -> Seq<char>
    decreases d.len(),
{
    if d.len() == 0 {
        Seq::empty()
    } else {
        let b0 = d[0] as int;
        let b1 = if d.len() > 1 {
            d[1] as int
        } else {
            0
        };
        let b2 = if d.len() > 2 {
            d[2] as int
        } else {
            0
        };
        let n = b0 * 65536 + b1 * 256 + b2;
        let quad = seq![
            letter(n / 262144),
            letter((n / 4096) % 64),
            if d.len() > 1 {
                letter((n / 64) % 64)
            } else {
                '='
            },
            if d.len() > 2 {
                letter(n % 64)
            } else {
                '='
            },
        ];
        if d.len() > 3 {
            quad + base64_text(d.skip(3))
        } else {
            quad
        }
    }
}

/// ASCII white space, which decoding skips.
pub open spec fn blank(c: char) -> bool {
    c == ' ' || c == '\t' || c == '\n' || c == '\u{c}' || c == '\r'
}

pub open spec fn unblanked(s: Seq<char>) -> Seq<char>
    decreases s.len(),
{
    if s.len() == 0 {
        Seq::empty()
    } else if blank(s.last()) {
        unblanked(s.drop_last())
    } else {
        unblanked(s.drop_last()).push(s.last())
    }
}

/// Value of one letter inside a group; `=` counts as zero.
pub open spec fn group_val(c: char) -> Option<int> {
    if c == '=' {
        Some(0)
    } else {
        sextet(c)
    }
}

pub open spec fn pad_count(q: Seq<char>) -> int {
    bool_count(q[0] == '=') + bool_count(q[1] == '=') + bool_count(q[2] == '=') + bool_count(
        q[3] == '=',
    )
}

pub open spec fn bool_count(b: bool) -> int {
    if b {
        1
    } else {
        0
    }
}

/// The bytes of one group of four letters.
pub open spec fn group_bytes(q: Seq<char>) -> Option<Seq<u8>> {
    match (group_val(q[0]), group_val(q[1]), group_val(q[2]), group_val(q[3])) {
        (Some(a), Some(b), Some(c), Some(d)) => {
            let n = a * 262144 + b * 4096 + c * 64 + d;
            let pad = pad_count(q);
            let x = seq![(n / 65536) as u8];
            let y = if pad < 2 {
                x.push(((n / 256) % 256) as u8)
            } else {
                x
            };
            Some(
                if pad < 1 {
                    y.push((n % 256) as u8)
                } else {
                    y
                },
            )
        },
        _ => None,
    }
}

/// The bytes that groups of four letters from `i` on stand for, behind `acc`.
pub open spec fn decode_groups(s: Seq<char>, i: int, acc: Seq<u8>) -> Option<Seq<u8>>
    decreases s.len() - i,
{
    if i >= s.len() {
        Some(acc)
    } else if i + 4 > s.len() {
        None
    } else {
        match group_bytes(s.subrange(i, i + 4)) {
            Some(b) => decode_groups(s, i + 4, acc + b),
            None => None,
        }
    }
}

/// The bytes a base64 text stands for, white space ignored.
pub open spec fn base64_bytes(s: Seq<char>) -> Option<Seq<u8>> {
    decode_groups(unblanked(s), 0, Seq::empty())
}

fn letter_of(v: u32) -> (r: char)
    requires
        v < 64,
    ensures
        r == letter(v as int),
{
    let b: u8 = v as u8;
    if b < 26 {
        (b + 65) as char
    } else if b < 52 {
        (b - 26 + 97) as char
    } else if b < 62 {
        (b - 52 + 48) as char
    } else if b == 62 {
        '+'
    } else {
        '/'
    }
}

pub fn base64_encode(data: &[u8]) -> (r: String)
    ensures
        r@ == base64_text(data@),
{
    let mut out: Vec<char> = Vec::new();
    let mut i: usize = 0;
    assert(data@.skip(0) =~= data@);
    while i < data.len()
        invariant
            i <= data.len(),
            out@ + base64_text(data@.skip(i as int)) == base64_text(data@),
        decreases data.len() - i,
    {
        let left: usize = data.len() - i;
        let ghost rest = data@.skip(i as int);
        let ghost before = out@;
        let b0: u32 = data[i] as u32;
        let b1: u32 = if left > 1 {
            data[i + 1] as u32
        } else {
            0
        };
        let b2: u32 = if left > 2 {
            data[i + 2] as u32
        } else {
            0
        };
        let n: u32 = b0 * 65536 + b1 * 256 + b2;
        out.push(letter_of(n / 262144));
        out.push(letter_of((n / 4096) % 64));
        out.push(
            if left > 1 {
                letter_of((n / 64) % 64)
            } else {
                '='
            },
        );
        out.push(
            if left > 2 {
                letter_of(n % 64)
            } else {
                '='
            },
        );
        assert(n == rest[0] as int * 65536 + (if rest.len() > 1 {
            rest[1] as int
        } else {
            0
        }) * 256 + (if rest.len() > 2 {
            rest[2] as int
        } else {
            0
        }));
        if left > 3 {
            assert(rest.skip(3) =~= data@.skip(i + 3));
            assert(out@ + base64_text(rest.skip(3)) =~= before + base64_text(rest));
            i += 3;
        } else {
            assert(out@ =~= before + base64_text(rest));
            i = data.len();
            assert(data@.skip(i as int) =~= Seq::<u8>::empty());
            assert(out@ + base64_text(data@.skip(i as int)) =~= out@);
        }
    }
    assert(data@.skip(i as int) =~= Seq::<u8>::empty());
    assert(out@ + base64_text(data@.skip(i as int)) =~= out@);
    from_chars(&out)
}

fn value_of(c: char) -> (r: Option<u32>)
    ensures
        match r {
            Some(v) => group_val(c) == Some(v as int) && v < 64,
            None => group_val(c) is None,
        },
{
    let n: u32 = c as u32;
    if c == '=' {
        Some(0)
    } else if 'A' <= c && c <= 'Z' {
        Some(n - 65)
    } else if 'a' <= c && c <= 'z' {
        Some(n - 97 + 26)
    } else if '0' <= c && c <= '9' {
        Some(n - 48 + 52)
    } else if c == '+' {
        Some(62)
    } else if c == '/' {
        Some(63)
    } else {
        None
    }
}

fn unblank(s: &[char]) -> (r: Vec<char>)
    ensures
        r@ == unblanked(s@),
{
    let mut out: Vec<char> = Vec::new();
    let mut i: usize = 0;
    while i < s.len()
        invariant
            i <= s.len(),
            out@ == unblanked(s@.take(i as int)),
        decreases s.len() - i,
    {
        assert(s@.take(i + 1).drop_last() =~= s@.take(i as int));
        let c = s[i];
        if !(c == ' ' || c == '\t' || c == '\n' || c == '\u{c}' || c == '\r') {
            out.push(c);
        }
        i += 1;
    }
    assert(s@.take(i as int) =~= s@);
    out
}

fn group_of(q0: char, q1: char, q2: char, q3: char) -> (r: Option<Vec<u8>>)
    ensures
        match r {
            Some(v) => group_bytes(seq![q0, q1, q2, q3]) == Some(v@),
            None => group_bytes(seq![q0, q1, q2, q3]) is None,
        },
{
    let ghost q = seq![q0, q1, q2, q3];
    match (value_of(q0), value_of(q1), value_of(q2), value_of(q3)) {
        (Some(a), Some(b), Some(c), Some(d)) => {
            let mut pad: u32 = 0;
            if q0 == '=' {
                pad += 1;
            }
            if q1 == '=' {
                pad += 1;
            }
            if q2 == '=' {
                pad += 1;
            }
            if q3 == '=' {
                pad += 1;
            }
            let n: u32 = a * 262144 + b * 4096 + c * 64 + d;
            assert(pad == pad_count(q));
            let mut out: Vec<u8> = Vec::new();
            out.push((n / 65536) as u8);
            if pad < 2 {
                out.push(((n / 256) % 256) as u8);
            }
            if pad < 1 {
                out.push((n % 256) as u8);
            }
            assert(out@ =~= group_bytes(q)->0);
            Some(out)
        },
        _ => None,
    }
}

pub fn base64_decode(s: &str) -> (r: Option<Vec<u8>>)
    ensures
        match r {
            Some(v) => base64_bytes(s@) == Some(v@),
            None => base64_bytes(s@) is None,
        },
{
    let cs = to_chars(s);
    let t = unblank(&cs);
    let mut out: Vec<u8> = Vec::new();
    let mut i: usize = 0;
    while i < t.len()
        invariant
            i <= t.len(),
            t@ == unblanked(s@),
            decode_groups(t@, i as int, out@) == decode_groups(t@, 0, Seq::empty()),
        decreases t.len() - i,
    {
        if t.len() - i < 4 {
            return None;
        }
        let ghost q = t@.subrange(i as int, i + 4);
        let ghost before = out@;
        assert(q =~= seq![t@[i as int], t@[i + 1], t@[i + 2], t@[i + 3]]);
        match group_of(t[i], t[i + 1], t[i + 2], t[i + 3]) {
            Some(mut bytes) => {
                out.append(&mut bytes);
            },
            None => {
                return None;
            },
        }
        i += 4;
    }
    Some(out)
}

proof fn lemma_letter(v: int)
    requires
        0 <= v < 64,
    ensures
        sextet(letter(v)) == Some(v),
        letter(v) != '=',
        !blank(letter(v)),
{
}

proof fn lemma_unblanked_id(s: Seq<char>)
    requires
        forall|i: int| 0 <= i < s.len() ==> !blank(#[trigger] s[i]),
    ensures
        unblanked(s) == s,
    decreases s.len(),
{
    if s.len() > 0 {
        lemma_unblanked_id(s.drop_last());
        assert(s.drop_last().push(s.last()) =~= s);
    } else {
        assert(unblanked(s) =~= s);
    }
}

pub proof fn lemma_text_shape(d: Seq<u8>)
    ensures
        forall|i: int|
            0 <= i < base64_text(d).len() ==> !blank(#[trigger] base64_text(d)[i]) && base64_text(d)[i]
                != '\u{1}',
        base64_text(d).len() == 4 * ((d.len() + 2) / 3),
    decreases d.len(),
{
    if d.len() > 3 {
        lemma_text_shape(d.skip(3));
    }
}

proof fn lemma_quad(b0: int, b1: int, b2: int)
    requires
        0 <= b0 < 256,
        0 <= b1 < 256,
        0 <= b2 < 256,
    ensures
        ({
            let n = b0 * 65536 + b1 * 256 + b2;
            let m = (n / 262144) * 262144 + ((n / 4096) % 64) * 4096 + ((n / 64) % 64) * 64 + n % 64;
            &&& m == n
            &&& n / 65536 == b0
            &&& (n / 256) % 256 == b1
            &&& n % 256 == b2
            &&& 0 <= n / 262144 < 64
            &&& b2 == 0 ==> {
                let k = (n / 262144) * 262144 + ((n / 4096) % 64) * 4096 + ((n / 64) % 64) * 64;
                k == n
            }
            &&& b2 == 0 && b1 == 0 ==> (n / 262144) * 262144 + ((n / 4096) % 64) * 4096 == n
        }),
{
    let n = b0 * 65536 + b1 * 256 + b2;
    let (h0, l0, h1, l1, h2, l2) = (b0 / 4, b0 % 4, b1 / 16, b1 % 16, b2 / 64, b2 % 64);
    let m0 = 64 * h0 + (l0 * 16 + h1);
    let m1 = 64 * m0 + (l1 * 4 + h2);
    lemma_fundamental_div_mod_converse(n, 262144, h0, l0 * 65536 + b1 * 256 + b2);
    lemma_fundamental_div_mod_converse(n, 4096, m0, l1 * 256 + b2);
    lemma_fundamental_div_mod_converse(m0, 64, h0, l0 * 16 + h1);
    lemma_fundamental_div_mod_converse(n, 64, m1, l2);
    lemma_fundamental_div_mod_converse(m1, 64, m0, l1 * 4 + h2);
    lemma_fundamental_div_mod_converse(n, 65536, b0, b1 * 256 + b2);
    lemma_fundamental_div_mod_converse(n, 256, b0 * 256 + b1, b2);
    lemma_fundamental_div_mod_converse(b0 * 256 + b1, 256, b0, b1);
}

proof fn lemma_decode_step(s: Seq<char>, d: Seq<u8>, i: int, acc: Seq<u8>)
    requires
        0 <= i <= s.len(),
        s.skip(i) == base64_text(d),
    ensures
        decode_groups(s, i, acc) == Some(acc + d),
    decreases d.len(),
{
    if d.len() == 0 {
        assert(s.skip(i).len() == 0);
        assert(acc + d =~= acc);
    } else {
        lemma_text_shape(d);
        assert(s.skip(i).len() >= 4);
        let q = s.subrange(i, i + 4);
        assert(q =~= base64_text(d).subrange(0, 4));
        let b0 = d[0] as int;
        let b1 = if d.len() > 1 {
            d[1] as int
        } else {
            0
        };
        let b2 = if d.len() > 2 {
            d[2] as int
        } else {
            0
        };
        lemma_quad(b0, b1, b2);
        let n = b0 * 65536 + b1 * 256 + b2;
        lemma_letter(n / 262144);
        lemma_letter((n / 4096) % 64);
        lemma_letter((n / 64) % 64);
        lemma_letter(n % 64);
        assert(q[0] == letter(n / 262144));
        assert(q[1] == letter((n / 4096) % 64));
        if d.len() > 3 {
            assert(group_bytes(q) == Some(d.take(3))) by {
                assert(group_bytes(q)->0 =~= d.take(3));
            }
            assert(s.skip(i + 4) =~= base64_text(d.skip(3))) by {
                assert(s.skip(i).skip(4) =~= s.skip(i + 4));
            }
            lemma_decode_step(s, d.skip(3), i + 4, acc + d.take(3));
            assert(acc + d.take(3) + d.skip(3) =~= acc + d);
        } else {
            assert(group_bytes(q)->0 =~= d);
            assert(s.len() == i + 4);
            assert(decode_groups(s, i + 4, acc + d) == Some(acc + d));
        }
    }
}

/// Decoding undoes encoding: every byte string comes back from its text.
pub proof fn law_base64_round_trip(d: Seq<u8>)
    ensures
        base64_bytes(base64_text(d)) == Some(d),
{
    lemma_text_shape(d);
    lemma_unblanked_id(base64_text(d));
    assert(base64_text(d).skip(0) =~= base64_text(d));
    lemma_decode_step(base64_text(d), d, 0, Seq::empty());
    assert(Seq::<u8>::empty() + d =~= d);
}

} // verus!
