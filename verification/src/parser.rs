//! The parser: tokens to statements, as the grammar says.
use vstd::prelude::*;
use crate::asks::{Ask, Reals, Stop, StopV};
use crate::catalog::{opt_text, strings_view};
use crate::env::sql_stop;
use crate::grammar::{
    bumped, components_from, eat, eat2, found, is_param, kw, kw_at, named_at, names_from, need_kw,
    need_sym, p_cast_type, p_component, p_ident, p_names, p_param, p_vector, past_marks,
    past_type_words, start, sym, to_close, tok, tok_at, PS, Parsed, SrcV,
};
use crate::lex::{ends_well, toks_view, Sym, Tok, TokV};
use crate::sql::{exprs_view, opt_expr_view, whens_view, CastTarget, Expr, ExprV};
use crate::text::{concat2, concat3, lower_chars, lower_text, names_match, same, spells};

verus! {

/// A parameter name and the number it got.
pub struct NamedParam {
    pub name: String,
    pub number: usize,
}

pub open spec fn named_view(v: Seq<NamedParam>) -> Seq<(Seq<char>, nat)> {
    Seq::new(v.len(), |i: int| (v[i].name@, v[i].number as nat))
}

pub struct Parser<'a> {
    pub toks: Vec<Tok>,
    pub text: &'a str,
    pub reals: &'a Reals,
    pub stored: bool,
    pub pos: usize,
    pub next: usize,
    pub max: usize,
    pub named: Vec<NamedParam>,
}

impl<'a> Parser<'a> {
    /// What is read.
    pub open spec fn x(&self) -> SrcV {
        SrcV {
            toks: toks_view(self.toks@),
            reals: self.reals@,
            text: self.text@,
            stored: self.stored,
        }
    }

    /// How far it has come.
    pub open spec fn st(&self) -> PS {
        PS {
            pos: self.pos as nat,
            next: self.next as nat,
            max: self.max as nat,
            named: named_view(self.named@),
        }
    }

    pub open spec fn wf(&self) -> bool {
        &&& ends_well(toks_view(self.toks@))
        &&& self.pos < self.toks.len()
        &&& self.next <= self.pos + 1
    }
}

/// `f` comes from `o` by reading on.
pub open spec fn went(o: Parser, f: Parser) -> bool {
    &&& f.wf()
    &&& f.x() == o.x()
    &&& f.toks@ == o.toks@
    &&& f.pos >= o.pos
}

pub open spec fn unit_at(r: Result<(), Stop>, f: PS) -> Result<PS, StopV> {
    match r {
        Ok(_) => Ok(f),
        Err(s) => Err(s@),
    }
}

pub open spec fn text_at(r: Result<String, Stop>, f: PS) -> Parsed<Seq<char>> {
    match r {
        Ok(v) => Ok((v@, f)),
        Err(s) => Err(s@),
    }
}

pub open spec fn texts_at(r: Result<Vec<String>, Stop>, f: PS) -> Parsed<Seq<Seq<char>>> {
    match r {
        Ok(v) => Ok((strings_view(v@), f)),
        Err(s) => Err(s@),
    }
}

pub open spec fn opt_text_at(r: Result<Option<String>, Stop>, f: PS) -> Parsed<Option<Seq<char>>> {
    match r {
        Ok(v) => Ok((opt_text(v), f)),
        Err(s) => Err(s@),
    }
}

pub open spec fn expr_at(r: Result<Expr, Stop>, f: PS) -> Parsed<ExprV> {
    match r {
        Ok(v) => Ok((v@, f)),
        Err(s) => Err(s@),
    }
}

pub open spec fn opt_expr_at(r: Result<Option<Expr>, Stop>, f: PS) -> Parsed<Option<ExprV>> {
    match r {
        Ok(v) => Ok((opt_expr_view(v), f)),
        Err(s) => Err(s@),
    }
}

pub open spec fn exprs_at(r: Result<Vec<Expr>, Stop>, f: PS) -> Parsed<Seq<ExprV>> {
    match r {
        Ok(v) => Ok((exprs_view(v@), f)),
        Err(s) => Err(s@),
    }
}

pub open spec fn whens_at(r: Result<Vec<(Expr, Expr)>, Stop>, f: PS) -> Parsed<Seq<(ExprV, ExprV)>> {
    match r {
        Ok(v) => Ok((whens_view(v@), f)),
        Err(s) => Err(s@),
    }
}

pub open spec fn plain_at<T>(r: Result<T, Stop>, f: PS) -> Parsed<T> {
    match r {
        Ok(v) => Ok((v, f)),
        Err(s) => Err(s@),
    }
}

pub open spec fn u32s_at(r: Result<Vec<u32>, Stop>, f: PS) -> Parsed<Seq<u32>> {
    match r {
        Ok(v) => Ok((v@, f)),
        Err(s) => Err(s@),
    }
}

impl<'a> Parser<'a> {
    pub fn new(toks: Vec<Tok>, text: &'a str, reals: &'a Reals, stored: bool) -> (p: Parser<'a>)
        requires
            ends_well(toks_view(toks@)),
        ensures
            p.wf(),
            p.st() == start(),
            p.x() == (SrcV { toks: toks_view(toks@), reals: reals@, text: text@, stored }),
            p.toks@ == toks@,
    {
        assert(toks_view(toks@).len() == toks@.len());
        let p = Parser { toks, text, reals, stored, pos: 0, next: 1, max: 0, named: Vec::new() };
        assert(named_view(p.named@) =~= Seq::<(Seq<char>, nat)>::empty());
        p
    }

    pub fn peek(&self) -> (r: &Tok)
        requires
            self.wf(),
        ensures
            r@ == tok(self.x(), self.st()),
    {
        assert(self.x().toks[self.pos as int] == self.toks@[self.pos as int]@);
        &self.toks[self.pos]
    }

    pub fn bump(&mut self)
        requires
            old(self).wf(),
        ensures
            final(self).st() == bumped(old(self).x(), old(self).st()),
            went(*old(self), *final(self)),
            final(self).next == old(self).next,
            !sym(old(self).x(), old(self).st(), Sym::Eof) ==> final(self).next <= final(self).pos,
    {
        proof {
            let tv = toks_view(self.toks@);
            assert(tv[self.pos as int] == self.toks@[self.pos as int]@);
            assert(tv.last() == tv[tv.len() - 1]);
        }
        if self.pos + 1 < self.toks.len() {
            self.pos = self.pos + 1;
        }
    }

    /// Whether the next token is a symbol.
    pub fn at(&self, y: Sym) -> (r: bool)
        requires
            self.wf(),
        ensures
            r == sym(self.x(), self.st(), y),
    {
        self.peek().is_sym(y)
    }

    pub fn skip(&mut self, y: Sym) -> (r: bool)
        requires
            old(self).wf(),
        ensures
            r == sym(old(self).x(), old(self).st(), y),
            went(*old(self), *final(self)),
            final(self).st() == (if r {
                bumped(old(self).x(), old(self).st())
            } else {
                old(self).st()
            }),
    {
        if self.at(y) {
            self.bump();
            true
        } else {
            false
        }
    }

    pub fn is_kw(&self, k: &str) -> (r: bool)
        requires
            self.wf(),
        ensures
            r == kw(self.x(), self.st(), k@),
    {
        match self.peek() {
            Tok::Word(w) => names_match(w, k),
            _ => false,
        }
    }

    pub fn eat_kw(&mut self, k: &str) -> (r: bool)
        requires
            old(self).wf(),
        ensures
            r == kw(old(self).x(), old(self).st(), k@),
            went(*old(self), *final(self)),
            final(self).st() == eat(old(self).x(), old(self).st(), k@),
    {
        if self.is_kw(k) {
            self.bump();
            true
        } else {
            false
        }
    }

    pub fn eat_either(&mut self, k: &str, l: &str) -> (r: bool)
        requires
            old(self).wf(),
        ensures
            r == (kw(old(self).x(), old(self).st(), k@) || kw(
                old(self).x(),
                old(self).st(),
                l@,
            )),
            went(*old(self), *final(self)),
            final(self).st() == eat2(old(self).x(), old(self).st(), k@, l@),
    {
        if self.is_kw(k) {
            self.bump();
            true
        } else {
            self.eat_kw(l)
        }
    }

    /// Whether the token `k` places on is a keyword.
    pub fn kw_ahead(&self, k: usize, w: &str) -> (r: bool)
        requires
            self.wf(),
        ensures
            r == kw_at(self.x(), (self.st().pos + k) as nat, w@),
    {
        if k < self.toks.len() - self.pos {
            assert(self.x().toks[self.pos + k] == self.toks@[self.pos + k]@);
            match &self.toks[self.pos + k] {
                Tok::Word(x) => names_match(x, w),
                _ => false,
            }
        } else {
            false
        }
    }

    pub fn sym_ahead(&self, k: usize, y: Sym) -> (r: bool)
        requires
            self.wf(),
            y != Sym::Eof,
        ensures
            r == (tok_at(self.x(), (self.st().pos + k) as nat) == TokV::Sym(y)),
    {
        if k < self.toks.len() - self.pos {
            assert(self.x().toks[self.pos + k] == self.toks@[self.pos + k]@);
            self.toks[self.pos + k].is_sym(y)
        } else {
            false
        }
    }

    /// An error that ends with the name of the next token.
    pub fn unexpected(&self, m: &str) -> (r: Stop)
        requires
            self.wf(),
        ensures
            r@ == found(self.x(), m@, tok(self.x(), self.st())),
    {
        match self.peek().name(self.reals) {
            Ok(n) => sql_stop(concat2(m, &n)),
            Err(e) => e,
        }
    }

    pub fn expect(&mut self, y: Sym) -> (r: Result<(), Stop>)
        requires
            old(self).wf(),
        ensures
            unit_at(r, final(self).st()) == need_sym(old(self).x(), old(self).st(), y),
            r is Ok ==> went(*old(self), *final(self)),
    {
        if self.at(y) {
            self.bump();
            Ok(())
        } else {
            let n = Tok::Sym(y);
            let shown = match n.name(self.reals) {
                Ok(s) => s,
                Err(e) => {
                    return Err(e);
                },
            };
            Err(self.unexpected(&concat3("expected ", &shown, ", found ")))
        }
    }

    pub fn expect_kw(&mut self, k: &str) -> (r: Result<(), Stop>)
        requires
            old(self).wf(),
        ensures
            unit_at(r, final(self).st()) == need_kw(old(self).x(), old(self).st(), k@),
            r is Ok ==> went(*old(self), *final(self)),
    {
        if self.eat_kw(k) {
            Ok(())
        } else {
            Err(self.unexpected(&concat3("expected keyword ", k, ", found ")))
        }
    }

    pub fn ident(&mut self) -> (r: Result<String, Stop>)
        requires
            old(self).wf(),
        ensures
            text_at(r, final(self).st()) == p_ident(old(self).x(), old(self).st()),
            r is Ok ==> went(*old(self), *final(self)),
    {
        let w = match self.peek() {
            Tok::Word(w) => w.clone(),
            _ => {
                return Err(self.unexpected("expected identifier, found "));
            },
        };
        self.bump();
        Ok(w)
    }

    /// Names separated by commas.
    pub fn names(&mut self) -> (r: Result<Vec<String>, Stop>)
        requires
            old(self).wf(),
        ensures
            texts_at(r, final(self).st()) == names_from(
                old(self).x(),
                old(self).st(),
                Seq::empty(),
            ),
            r is Ok ==> went(*old(self), *final(self)),
    {
        let ghost x = self.x();
        let ghost s0 = self.st();
        let mut out: Vec<String> = Vec::new();
        assert(strings_view(out@) =~= Seq::<Seq<char>>::empty());
        loop
            invariant
                went(*old(self), *self),
                x == self.x(),
                x == old(self).x(),
                s0 == old(self).st(),
                names_from(x, self.st(), strings_view(out@)) == names_from(x, s0, Seq::empty()),
            decreases self.toks.len() - self.pos,
        {
            let ghost before = strings_view(out@);
            let n = self.ident()?;
            let ghost nv = n@;
            out.push(n);
            assert(strings_view(out@) =~= before.push(nv));
            if !self.skip(Sym::Comma) {
                return Ok(out);
            }
        }
    }

    /// A list of names in parentheses.
    pub fn paren_ident_list(&mut self) -> (r: Result<Vec<String>, Stop>)
        requires
            old(self).wf(),
        ensures
            texts_at(r, final(self).st()) == p_names(old(self).x(), old(self).st()),
            r is Ok ==> went(*old(self), *final(self)),
    {
        self.expect(Sym::LParen)?;
        let v = self.names()?;
        self.expect(Sym::RParen)?;
        Ok(v)
    }

    // ---- parameters ----------------------------------------------------------------------

    /// Read a parameter token.
    pub fn param(&mut self) -> (r: Expr)
        requires
            old(self).wf(),
            is_param(tok(old(self).x(), old(self).st())),
        ensures
            (r@, final(self).st()) == p_param(old(self).x(), old(self).st()),
            went(*old(self), *final(self)),
    {
        let ghost x = self.x();
        let ghost s0 = self.st();
        let name: Option<String> = match self.peek() {
            Tok::NumParam(n) => {
                let n: usize = *n;
                self.bump();
                if n > self.max {
                    self.max = n;
                }
                return Expr::Param(n);
            },
            Tok::NamedParam(w) => Some(w.clone()),
            _ => None,
        };
        self.bump();
        match name {
            Some(w) => {
                let ghost nv = named_view(self.named@);
                let mut i: usize = 0;
                while i < self.named.len()
                    invariant
                        i <= self.named.len(),
                        nv == named_view(self.named@),
                        named_at(nv, w@, i as int) == named_at(nv, w@, 0),
                        self.wf(),
                        went(*old(self), *self),
                        x == old(self).x(),
                        s0 == old(self).st(),
                        tok(x, s0) == TokV::NamedParam(w@),
                        self.st() == bumped(x, s0),
                    decreases self.named.len() - i,
                {
                    assert(nv[i as int] == (
                        self.named@[i as int].name@,
                        self.named@[i as int].number as nat,
                    ));
                    if same(&self.named[i].name, &w) {
                        let n: usize = self.named[i].number;
                        if n > self.max {
                            self.max = n;
                        }
                        return Expr::Param(n);
                    }
                    i += 1;
                }
                let n: usize = self.next;
                let ghost wv = w@;
                self.named.push(NamedParam { name: w, number: n });
                assert(named_view(self.named@) =~= nv.push((wv, n as nat)));
                self.next = n + 1;
                if n > self.max {
                    self.max = n;
                }
                Expr::Param(n)
            },
            None => {
                let n: usize = self.next;
                self.next = n + 1;
                if n > self.max {
                    self.max = n;
                }
                Expr::Param(n)
            },
        }
    }

    // ---- types in casts -------------------------------------------------------------------

    fn skip_to_close(&mut self)
        requires
            old(self).wf(),
        ensures
            final(self).st() == to_close(old(self).x(), old(self).st()),
            went(*old(self), *final(self)),
    {
        let ghost x = self.x();
        let ghost s0 = self.st();
        while !self.at(Sym::RParen) && !self.at(Sym::Eof)
            invariant
                went(*old(self), *self),
                x == self.x(),
                to_close(x, self.st()) == to_close(x, s0),
            decreases self.toks.len() - self.pos,
        {
            self.bump();
        }
    }

    fn eat_type_modifiers(&mut self, word: &str)
        requires
            old(self).wf(),
        ensures
            final(self).st() == past_type_words(
                old(self).x(),
                old(self).st(),
                lower_text(word@),
            ),
            went(*old(self), *final(self)),
    {
        let w = lower_chars(word);
        if spells(&w, "double") {
            let _ = self.eat_kw("precision");
        } else if spells(&w, "character") || spells(&w, "bit") {
            let _ = self.eat_kw("varying");
        } else if (spells(&w, "timestamp") || spells(&w, "time")) && (self.is_kw("with")
            || self.is_kw("without")) {
            self.bump();
            let _ = self.eat_kw("time");
            let _ = self.eat_kw("zone");
        }
    }

    /// A type in a cast.
    pub fn parse_cast_type(&mut self) -> (r: Result<CastTarget, Stop>)
        requires
            old(self).wf(),
        ensures
            plain_at(r, final(self).st()) == p_cast_type(old(self).x(), old(self).st()),
            r is Ok ==> went(*old(self), *final(self)),
    {
        let ghost x = self.x();
        let mut word = self.ident()?;
        if self.skip(Sym::Dot) {
            word = self.ident()?;
        }
        let target = CastTarget::from_word(&word);
        self.eat_type_modifiers(&word);
        if self.skip(Sym::LParen) {
            self.skip_to_close();
            self.expect(Sym::RParen)?;
        }
        let ghost s3 = self.st();
        loop
            invariant
                went(*old(self), *self),
                x == self.x(),
                past_marks(x, self.st()) == past_marks(x, s3),
                p_cast_type(old(self).x(), old(self).st()) == (match past_marks(x, s3) {
                    Err(e) => Err(e),
                    Ok(s4) => Ok((target, s4)),
                }),
            decreases self.toks.len() - self.pos,
        {
            if !self.skip(Sym::LBracket) {
                return Ok(target);
            }
            self.expect(Sym::RBracket)?;
        }
    }

    // ---- vectors --------------------------------------------------------------------------

    fn number_component(&mut self) -> (r: Result<u32, Stop>)
        requires
            old(self).wf(),
        ensures
            plain_at(r, final(self).st()) == p_component(old(self).x(), old(self).st()),
            r is Ok ==> went(*old(self), *final(self)),
    {
        let neg = self.skip(Sym::Minus);
        let ask = match self.peek() {
            Tok::Int(n) => Ask::Int32(*n),
            Tok::Real(b) => Ask::Narrow(*b),
            _ => {
                return Err(self.unexpected("vector literal expects numbers, found "));
            },
        };
        let v: u32 = self.reals.float(ask)?;
        self.bump();
        if neg {
            if v >= 0x8000_0000 {
                Ok(v - 0x8000_0000)
            } else {
                Ok(v + 0x8000_0000)
            }
        } else {
            Ok(v)
        }
    }

    fn components(&mut self) -> (r: Result<Vec<u32>, Stop>)
        requires
            old(self).wf(),
        ensures
            u32s_at(r, final(self).st()) == components_from(
                old(self).x(),
                old(self).st(),
                Seq::empty(),
            ),
            r is Ok ==> went(*old(self), *final(self)),
    {
        let ghost x = self.x();
        let ghost s0 = self.st();
        let mut out: Vec<u32> = Vec::new();
        loop
            invariant
                went(*old(self), *self),
                x == self.x(),
                x == old(self).x(),
                s0 == old(self).st(),
                components_from(x, self.st(), out@) == components_from(x, s0, Seq::empty()),
            decreases self.toks.len() - self.pos,
        {
            let v: u32 = self.number_component()?;
            out.push(v);
            if !self.skip(Sym::Comma) {
                return Ok(out);
            }
        }
    }

    pub fn vector_literal(&mut self) -> (r: Result<Expr, Stop>)
        requires
            old(self).wf(),
            sym(old(self).x(), old(self).st(), Sym::LBracket),
        ensures
            expr_at(r, final(self).st()) == p_vector(old(self).x(), old(self).st()),
            r is Ok ==> went(*old(self), *final(self)),
    {
        self.bump();
        let comps: Vec<u32> = if self.at(Sym::RBracket) {
            Vec::new()
        } else {
            self.components()?
        };
        self.expect(Sym::RBracket)?;
        assert(comps@.len() == 0 ==> comps@ =~= Seq::<u32>::empty());
        Ok(Expr::Vector(comps))
    }
}

} // verus!
