//! Bytes: how numbers and texts are laid out in records, and reading them back.
//!
//! Numbers are little-endian. A text is its length in bytes, as four bytes, and
//! its UTF-8 bytes.
use vstd::prelude::*;
use vstd::bytes::{ lemma_auto_spec_u32_to_from_le_bytes, lemma_auto_spec_u64_to_from_le_bytes, spec_u32_from_le_bytes, spec_u32_to_le_bytes, spec_u64_from_le_bytes, spec_u64_to_le_bytes, u32_from_le_bytes, u32_to_le_bytes, u64_from_le_bytes, u64_to_le_bytes, };
use vstd::utf8::{decode_utf8, encode_utf8, encode_utf8_decode_utf8, encode_utf8_valid_utf8, valid_utf8};
use crate::catalog::strings_view;
use crate::error::{internal_err, EngineError, ErrorV};
use crate::text::owned;

verus! {

/// What was read, and the bytes behind it.
pub type Got<T> = Result<(T, Seq<u8>), ErrorV>;

pub open spec fn truncated() -> ErrorV {
    internal_err("WAL record truncated"@)
}

pub open spec fn le32(v: u32) -> Seq<u8> {
    spec_u32_to_le_bytes(v)
}

pub open spec fn le64(v: u64) -> Seq<u8> {
    spec_u64_to_le_bytes(v)
}

pub open spec fn text_bytes(s: Seq<char>) -> Seq<u8> {
    le32(encode_utf8(s).len() as u32) + encode_utf8(s)
}

/// The texts one behind the other.
pub open spec fn texts_flat(v: Seq<Seq<char>>) -> Seq<u8>
    decreases v.len(),
{
    if v.len() == 0 {
        Seq::empty()
    } else {
        texts_flat(v.drop_last()) + text_bytes(v.last())
    }
}

/// A list of texts with their number before it.
pub open spec fn texts_bytes(v: Seq<Seq<char>>) -> Seq<u8> {
    le32(v.len() as u32) + texts_flat(v)
}

pub open spec fn get_bytes(b: Seq<u8>, n: nat) -> Got<Seq<u8>> {
    if b.len() < n {
        Err(truncated())
    } else {
        Ok((b.subrange(0, n as int), b.subrange(n as int, b.len() as int)))
    }
}

pub open spec fn get_u8(b: Seq<u8>) -> Got<u8> {
    match get_bytes(b, 1) {
        Err(e) => Err(e),
        Ok((x, r)) => Ok((x[0], r)),
    }
}

pub open spec fn get_u32(b: Seq<u8>) -> Got<u32> {
    match get_bytes(b, 4) {
        Err(e) => Err(e),
        Ok((x, r)) => Ok((spec_u32_from_le_bytes(x), r)),
    }
}

pub open spec fn get_u64(b: Seq<u8>) -> Got<u64> {
    match get_bytes(b, 8) {
        Err(e) => Err(e),
        Ok((x, r)) => Ok((spec_u64_from_le_bytes(x), r)),
    }
}

pub open spec fn get_text(b: Seq<u8>) -> Got<Seq<char>> {
    match get_u32(b) {
        Err(e) => Err(e),
        Ok((n, r)) => match get_bytes(r, n as nat) {
            Err(e) => Err(e),
            Ok((x, r2)) => if valid_utf8(x) {
                Ok((decode_utf8(x), r2))
            } else {
                Err(internal_err("bad utf8 in WAL"@))
            },
        },
    }
}

/// `n` further texts behind `acc`.
pub open spec fn get_texts_from(b: Seq<u8>, n: nat, acc: Seq<Seq<char>>) -> Got<Seq<Seq<char>>>
    decreases n,
{
    if n == 0 {
        Ok((acc, b))
    } else {
        match get_text(b) {
            Err(e) => Err(e),
            Ok((s, r)) => get_texts_from(r, (n - 1) as nat, acc.push(s)),
        }
    }
}

pub open spec fn get_texts(b: Seq<u8>) -> Got<Seq<Seq<char>>> {
    match get_u32(b) {
        Err(e) => Err(e),
        Ok((n, r)) => get_texts_from(r, n as nat, Seq::empty()),
    }
}

/// Whether a text's length fits the four bytes it is given.
pub open spec fn text_fits(s: Seq<char>) -> bool {
    encode_utf8(s).len() <= u32::MAX
}

pub open spec fn texts_fit(v: Seq<Seq<char>>) -> bool {
    v.len() <= u32::MAX && forall|i: int| 0 <= i < v.len() ==> text_fits(#[trigger] v[i])
}

// ---- what is written reads back -------------------------------------------------------------------

pub proof fn lemma_got_bytes(x: Seq<u8>, rest: Seq<u8>)
    ensures
        get_bytes(x + rest, x.len()) == Ok::<(Seq<u8>, Seq<u8>), ErrorV>((x, rest)),
{
    let b = x + rest;
    assert(b.subrange(0, x.len() as int) =~= x);
    assert(b.subrange(x.len() as int, b.len() as int) =~= rest);
}

pub proof fn lemma_got_u8(x: u8, rest: Seq<u8>)
    ensures
        get_u8(seq![x] + rest) == Ok::<(u8, Seq<u8>), ErrorV>((x, rest)),
{
    lemma_got_bytes(seq![x], rest);
}

pub proof fn lemma_got_u32(x: u32, rest: Seq<u8>)
    ensures
        le32(x).len() == 4,
        get_u32(le32(x) + rest) == Ok::<(u32, Seq<u8>), ErrorV>((x, rest)),
{
    lemma_auto_spec_u32_to_from_le_bytes();
    lemma_got_bytes(le32(x), rest);
}

pub proof fn lemma_got_u64(x: u64, rest: Seq<u8>)
    ensures
        le64(x).len() == 8,
        get_u64(le64(x) + rest) == Ok::<(u64, Seq<u8>), ErrorV>((x, rest)),
{
    lemma_auto_spec_u64_to_from_le_bytes();
    lemma_got_bytes(le64(x), rest);
}

pub proof fn lemma_got_text(s: Seq<char>, rest: Seq<u8>)
    requires
        text_fits(s),
    ensures
        get_text(text_bytes(s) + rest) == Ok::<(Seq<char>, Seq<u8>), ErrorV>((s, rest)),
{
    let e = encode_utf8(s);
    encode_utf8_valid_utf8(s);
    encode_utf8_decode_utf8(s);
    assert(text_bytes(s) + rest =~= le32(e.len() as u32) + (e + rest));
    lemma_got_u32(e.len() as u32, e + rest);
    lemma_got_bytes(e, rest);
}

/// The texts from `i` on read back behind the ones before them.
pub proof fn lemma_got_texts_from(v: Seq<Seq<char>>, i: int, rest: Seq<u8>)
    requires
        texts_fit(v),
        0 <= i <= v.len(),
    ensures
        get_texts_from(
            texts_flat(v.subrange(i, v.len() as int)) + rest,
            (v.len() - i) as nat,
            v.subrange(0, i),
        ) == Ok::<(Seq<Seq<char>>, Seq<u8>), ErrorV>((v, rest)),
    decreases v.len() - i,
{
    let tail = v.subrange(i, v.len() as int);
    if i == v.len() {
        assert(texts_flat(tail) + rest =~= rest);
        assert(v.subrange(0, i) =~= v);
    } else {
        let next = v.subrange(i + 1, v.len() as int);
        lemma_flat_front(tail);
        assert(tail.drop_first() =~= next);
        assert(texts_flat(tail) + rest =~= text_bytes(v[i]) + (texts_flat(next) + rest));
        lemma_got_text(v[i], texts_flat(next) + rest);
        assert(v.subrange(0, i).push(v[i]) =~= v.subrange(0, i + 1));
        lemma_got_texts_from(v, i + 1, rest);
    }
}

pub proof fn lemma_flat_front(v: Seq<Seq<char>>)
    requires
        v.len() > 0,
    ensures
        texts_flat(v) == text_bytes(v[0]) + texts_flat(v.drop_first()),
    decreases v.len(),
{
    if v.len() == 1 {
        assert(texts_flat(v.drop_last()) =~= Seq::<u8>::empty());
        assert(texts_flat(v) =~= text_bytes(v[0]) + texts_flat(v.drop_first()));
    } else {
        lemma_flat_front(v.drop_last());
        assert(v.drop_last().drop_first() =~= v.drop_first().drop_last());
        assert(texts_flat(v) =~= text_bytes(v[0]) + (texts_flat(v.drop_first().drop_last())
            + text_bytes(v.last())));
    }
}

pub proof fn lemma_got_texts(v: Seq<Seq<char>>, rest: Seq<u8>)
    requires
        texts_fit(v),
    ensures
        get_texts(texts_bytes(v) + rest) == Ok::<(Seq<Seq<char>>, Seq<u8>), ErrorV>((v, rest)),
{
    assert(texts_bytes(v) + rest =~= le32(v.len() as u32) + (texts_flat(v) + rest));
    lemma_got_u32(v.len() as u32, texts_flat(v) + rest);
    assert(v.subrange(0, v.len() as int) =~= v);
    assert(v.subrange(0, 0) =~= Seq::<Seq<char>>::empty());
    lemma_got_texts_from(v, 0, rest);
}

// ---- writing --------------------------------------------------------------------------------------

pub fn put_all(b: &mut Vec<u8>, s: &[u8])
    ensures
        final(b)@ == old(b)@ + s@,
{
    let mut i: usize = 0;
    while i < s.len()
        invariant
            i <= s.len(),
            b@ == old(b)@ + s@.subrange(0, i as int),
        decreases s.len() - i,
    {
        assert(s@.subrange(0, i + 1) =~= s@.subrange(0, i as int).push(s@[i as int]));
        b.push(s[i]);
        i += 1;
    }
    assert(s@.subrange(0, i as int) =~= s@);
}

pub fn put_u32(b: &mut Vec<u8>, v: u32)
    ensures
        final(b)@ == old(b)@ + le32(v),
{
    let x = u32_to_le_bytes(v);
    put_all(b, &x);
}

pub fn put_u64(b: &mut Vec<u8>, v: u64)
    ensures
        final(b)@ == old(b)@ + le64(v),
{
    let x = u64_to_le_bytes(v);
    put_all(b, &x);
}

pub fn put_len(b: &mut Vec<u8>, n: usize)
    ensures
        final(b)@ == old(b)@ + le32(n as u32),
{
    put_u32(
        b,
        #[verifier::truncate]
        (n as u32),
    );
}

pub fn put_str(b: &mut Vec<u8>, s: &str)
    ensures
        final(b)@ == old(b)@ + text_bytes(s@),
{
    let x = s.as_bytes();
    put_len(b, x.len());
    put_all(b, x);
    assert(b@ =~= old(b)@ + text_bytes(s@));
}

pub fn put_strs(b: &mut Vec<u8>, v: &Vec<String>)
    ensures
        final(b)@ == old(b)@ + texts_bytes(strings_view(v@)),
{
    let ghost sv = strings_view(v@);
    put_len(b, v.len());
    let ghost head = b@;
    let mut i: usize = 0;
    assert(texts_flat(sv.subrange(0, 0)) =~= Seq::<u8>::empty());
    while i < v.len()
        invariant
            i <= v.len(),
            sv == strings_view(v@),
            b@ == head + texts_flat(sv.subrange(0, i as int)),
        decreases v.len() - i,
    {
        put_str(b, &v[i]);
        proof {
            let next = sv.subrange(0, i + 1);
            assert(next.drop_last() =~= sv.subrange(0, i as int));
            assert(next.last() == v@[i as int]@);
            assert(b@ =~= head + texts_flat(next));
        }
        i += 1;
    }
    assert(sv.subrange(0, i as int) =~= sv);
    assert(b@ =~= old(b)@ + texts_bytes(sv));
}

// ---- reading --------------------------------------------------------------------------------------

/// `String::from_utf8`: the text that bytes encode, where they are well-formed
/// UTF-8; nothing where they are not.
#[verifier::external_body]
fn std_from_utf8(b: Vec<u8>) -> (r: Option<String>)
    ensures
        match r {
            Some(s) => valid_utf8(b@) && s@ == decode_utf8(b@),
            None => !valid_utf8(b@),
        },
{
    String::from_utf8(b).ok()
}

/// A record being read.
pub struct Cursor<'a> {
    pub b: &'a [u8],
    pub p: usize,
}

pub open spec fn got<T>(r: Result<T, EngineError>, rest: Seq<u8>) -> Got<T> {
    match r {
        Ok(v) => Ok((v, rest)),
        Err(e) => Err(e@),
    }
}

pub open spec fn got_view<T: View>(r: Result<T, EngineError>, rest: Seq<u8>) -> Got<T::V> {
    match r {
        Ok(v) => Ok((v@, rest)),
        Err(e) => Err(e@),
    }
}

pub open spec fn got_texts(r: Result<Vec<String>, EngineError>, rest: Seq<u8>) -> Got<
    Seq<Seq<char>>,
> {
    match r {
        Ok(v) => Ok((strings_view(v@), rest)),
        Err(e) => Err(e@),
    }
}

impl<'a> Cursor<'a> {
    pub open spec fn wf(&self) -> bool {
        self.p <= self.b@.len()
    }

    /// The bytes that are left.
    pub open spec fn rest(&self) -> Seq<u8> {
        self.b@.subrange(self.p as int, self.b@.len() as int)
    }

    pub fn new(b: &'a [u8]) -> (c: Cursor<'a>)
        ensures
            c.wf(),
            c.rest() == b@,
    {
        let c = Cursor { b, p: 0 };
        assert(c.rest() =~= b@);
        c
    }

    pub fn at_end(&self) -> (r: bool)
        requires
            self.wf(),
        ensures
            r == (self.rest().len() == 0),
    {
        self.p >= self.b.len()
    }

    pub fn take(&mut self, n: usize) -> (r: Result<Vec<u8>, EngineError>)
        requires
            old(self).wf(),
        ensures
            final(self).wf(),
            got_view(r, final(self).rest()) == get_bytes(old(self).rest(), n as nat),
    {
        if n > self.b.len() - self.p {
            return Err(EngineError::internal(owned("WAL record truncated")));
        }
        let mut out: Vec<u8> = Vec::new();
        let from: usize = self.p;
        let len: usize = self.b.len();
        let ghost all = self.b@;
        let mut i: usize = 0;
        while i < n
            invariant
                i <= n,
                from + n <= len,
                len == self.b@.len(),
                self.b@ == all,
                self.p == from,
                out@ == all.subrange(from as int, from + i),
                *self == *old(self),
            decreases n - i,
        {
            out.push(self.b[from + i]);
            assert(all.subrange(from as int, from + i + 1) =~= all.subrange(
                from as int,
                from + i,
            ).push(all[from + i]));
            i += 1;
        }
        self.p = from + n;
        proof {
            let r = old(self).rest();
            assert(r.subrange(0, n as int) =~= out@);
            assert(r.subrange(n as int, r.len() as int) =~= self.rest());
        }
        Ok(out)
    }

    pub fn u8(&mut self) -> (r: Result<u8, EngineError>)
        requires
            old(self).wf(),
        ensures
            final(self).wf(),
            got(r, final(self).rest()) == get_u8(old(self).rest()),
    {
        let x = self.take(1)?;
        Ok(x[0])
    }

    pub fn u32(&mut self) -> (r: Result<u32, EngineError>)
        requires
            old(self).wf(),
        ensures
            final(self).wf(),
            got(r, final(self).rest()) == get_u32(old(self).rest()),
    {
        let x = self.take(4)?;
        Ok(u32_from_le_bytes(&x))
    }

    pub fn u64(&mut self) -> (r: Result<u64, EngineError>)
        requires
            old(self).wf(),
        ensures
            final(self).wf(),
            got(r, final(self).rest()) == get_u64(old(self).rest()),
    {
        let x = self.take(8)?;
        Ok(u64_from_le_bytes(&x))
    }

    pub fn str(&mut self) -> (r: Result<String, EngineError>)
        requires
            old(self).wf(),
        ensures
            final(self).wf(),
            got_view(r, final(self).rest()) == get_text(old(self).rest()),
    {
        let n: u32 = self.u32()?;
        let x = self.take(n as usize)?;
        match std_from_utf8(x) {
            Some(s) => Ok(s),
            None => Err(EngineError::internal(owned("bad utf8 in WAL"))),
        }
    }

    pub fn strs(&mut self) -> (r: Result<Vec<String>, EngineError>)
        requires
            old(self).wf(),
        ensures
            final(self).wf(),
            got_texts(r, final(self).rest()) == get_texts(old(self).rest()),
    {
        let n: u32 = self.u32()?;
        let ghost b0 = self.rest();
        let mut out: Vec<String> = Vec::new();
        assert(strings_view(out@) =~= Seq::<Seq<char>>::empty());
        let mut i: u32 = 0;
        while i < n
            invariant
                i <= n,
                self.wf(),
                get_texts_from(self.rest(), (n - i) as nat, strings_view(out@))
                    == get_texts_from(b0, n as nat, Seq::empty()),
                get_texts(old(self).rest()) == get_texts_from(b0, n as nat, Seq::empty()),
            decreases n - i,
        {
            let ghost before = strings_view(out@);
            let s = self.str()?;
            let ghost sv = s@;
            out.push(s);
            assert(strings_view(out@) =~= before.push(sv));
            i += 1;
        }
        Ok(out)
    }
}

} // verus!
