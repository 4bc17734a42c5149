//! Requests to the floating-point unit, and the answers collected so far.
//!
//! The engine decides; a host with a floating-point unit computes. When an
//! evaluation needs a sum, a root or the decimal text of a real, it stops with an
//! [`Ask`]; the host answers, files the answer in [`Reals`], and starts the
//! evaluation again. An answer once filed stays, so evaluating again reaches the
//! same point and goes on. Random draws are answered the same way.
use vstd::prelude::*;
use crate::error::{EngineError, ErrorV};
use crate::text::{from_chars, owned, same};
use crate::vector::Metric;

verus! {

/// Two-operand arithmetic on doubles.
#[derive(Clone, Copy, Debug, PartialEq, Eq, Structural)]
pub enum Binary {
    Plus,
    Minus,
    Times,
    Over,
    Modulo,
    Power,
}

/// One-operand functions on doubles.
#[derive(Clone, Copy, Debug, PartialEq, Eq, Structural)]
pub enum Unary {
    Sqrt,
    Exp,
    Ln,
    Log10,
}

/// One request to the floating-point unit.
pub enum Ask {
    /// The double that a decimal text denotes, if it denotes one.
    Parse(String),
    /// The float that a decimal text denotes, if it denotes one.
    Parse32(String),
    /// The float nearest to a double.
    Narrow(u64),
    /// The float nearest to an integer.
    Int32(i64),
    /// The shortest decimal text of a double.
    Show(u64),
    /// The shortest decimal text of a float.
    Show32(u32),
    /// The text of a double as diagnostics write it.
    Spell(u64),
    /// `a op b`.
    Apply2(Binary, u64, u64),
    /// `f(a)`.
    Apply1(Unary, u64),
    /// `a` rounded to `n` decimal places, halves away from zero.
    Places(u64, i64),
    /// The left-to-right sum of a list.
    Total(Vec<u64>),
    /// A random draw: at a place in the statement, for the row with ordinal `tick`, the
    /// `k`-th of call site `site`.
    Draw(Vec<u64>, u64, i64, u8),
    /// The distance of two vectors of one length, widened to a double.
    Distance(Metric, Vec<u32>, Vec<u32>),
    /// The state of a vector index: how many vectors its graph holds, and the oldest
    /// snapshot that it can answer.
    Graph(String),
    /// The nearest entries of a vector index to a query: at most `k` of them, found
    /// with the given search width.
    Nearest(String, Vec<u32>, u64, u64),
}

/// What an [`Ask`] says.
pub enum AskV {
    Parse(Seq<char>),
    Parse32(Seq<char>),
    Narrow(u64),
    Int32(i64),
    Show(u64),
    Show32(u32),
    Spell(u64),
    Apply2(Binary, u64, u64),
    Apply1(Unary, u64),
    Places(u64, i64),
    Total(Seq<u64>),
    Draw(Seq<u64>, u64, i64, u8),
    Distance(Metric, Seq<u32>, Seq<u32>),
    Graph(Seq<char>),
    Nearest(Seq<char>, Seq<u32>, u64, u64),
}

impl View for Ask {
    type V = AskV;

    open spec fn view(&self) -> AskV {
        match self {
            Ask::Parse(s) => AskV::Parse(s@),
            Ask::Parse32(s) => AskV::Parse32(s@),
            Ask::Narrow(b) => AskV::Narrow(*b),
            Ask::Int32(n) => AskV::Int32(*n),
            Ask::Show(b) => AskV::Show(*b),
            Ask::Show32(b) => AskV::Show32(*b),
            Ask::Spell(b) => AskV::Spell(*b),
            Ask::Apply2(o, a, b) => AskV::Apply2(*o, *a, *b),
            Ask::Apply1(f, a) => AskV::Apply1(*f, *a),
            Ask::Places(a, n) => AskV::Places(*a, *n),
            Ask::Total(v) => AskV::Total(v@),
            Ask::Draw(p, t, s, k) => AskV::Draw(p@, *t, *s, *k),
            Ask::Distance(m, a, b) => AskV::Distance(*m, a@, b@),
            Ask::Graph(n) => AskV::Graph(n@),
            Ask::Nearest(n, q, k, ef) => AskV::Nearest(n@, q@, *k, *ef),
        }
    }
}

/// An answer from the floating-point unit.
pub enum Answer {
    /// A double.
    Bits(u64),
    /// A double, or none because the text denotes no number.
    Number(Option<u64>),
    /// A float, or none because the text denotes no number.
    Number32(Option<u32>),
    /// A decimal text.
    Text(String),
    /// How many vectors a graph holds, and its oldest snapshot.
    Graph(u64, u64),
    /// Version ids, nearest first.
    Ids(Vec<u64>),
}

/// What an [`Answer`] says.
pub enum AnswerV {
    Bits(u64),
    Number(Option<u64>),
    Number32(Option<u32>),
    Text(Seq<char>),
    Graph(u64, u64),
    Ids(Seq<u64>),
}

impl View for Answer {
    type V = AnswerV;

    open spec fn view(&self) -> AnswerV {
        match self {
            Answer::Bits(b) => AnswerV::Bits(*b),
            Answer::Number(o) => AnswerV::Number(*o),
            Answer::Number32(o) => AnswerV::Number32(*o),
            Answer::Text(s) => AnswerV::Text(s@),
            Answer::Graph(n, f) => AnswerV::Graph(*n, *f),
            Answer::Ids(v) => AnswerV::Ids(v@),
        }
    }
}

/// The answers so far.
pub struct Reals {
    pub entries: Vec<(Ask, Answer)>,
}

/// The answers so far, as asks and answers in the order they were given.
pub type RealsV = Seq<(AskV, AnswerV)>;

impl View for Reals {
    type V = RealsV;

    open spec fn view(&self) -> RealsV {
        Seq::new(self.entries@.len(), |i: int| (self.entries@[i].0@, self.entries@[i].1@))
    }
}

/// The first answer filed for an ask.
pub open spec fn answer_to(t: RealsV, ask: AskV) -> Option<AnswerV>
    decreases t.len(),
{
    if t.len() == 0 {
        None
    } else if t[0].0 == ask {
        Some(t[0].1)
    } else {
        answer_to(t.drop_first(), ask)
    }
}

/// Why an evaluation stopped short of a value.
pub enum Stop {
    /// The statement is in error.
    Fail(EngineError),
    /// An answer is missing.
    Need(Ask),
}

/// What a [`Stop`] says.
pub enum StopV {
    Fail(ErrorV),
    Need(AskV),
}

impl View for Stop {
    type V = StopV;

    open spec fn view(&self) -> StopV {
        match self {
            Stop::Fail(e) => StopV::Fail(e@),
            Stop::Need(a) => StopV::Need(a@),
        }
    }
}

fn same_u32s(a: &Vec<u32>, b: &Vec<u32>) -> (r: bool)
    ensures
        r == (a@ == b@),
{
    if a.len() != b.len() {
        return false;
    }
    let mut i: usize = 0;
    while i < a.len()
        invariant
            i <= a.len(),
            a.len() == b.len(),
            forall|k: int| 0 <= k < i ==> a@[k] == b@[k],
        decreases a.len() - i,
    {
        if a[i] != b[i] {
            return false;
        }
        i += 1;
    }
    assert(a@ =~= b@);
    true
}

fn same_u64s(a: &Vec<u64>, b: &Vec<u64>) -> (r: bool)
    ensures
        r == (a@ == b@),
{
    if a.len() != b.len() {
        return false;
    }
    let mut i: usize = 0;
    while i < a.len()
        invariant
            i <= a.len(),
            a.len() == b.len(),
            forall|k: int| 0 <= k < i ==> a@[k] == b@[k],
        decreases a.len() - i,
    {
        if a[i] != b[i] {
            return false;
        }
        i += 1;
    }
    assert(a@ =~= b@);
    true
}

impl Ask {
    /// Whether two requests are the same.
    pub fn matches(&self, other: &Ask) -> (r: bool)
        ensures
            r == (self@ == other@),
    {
        match (self, other) {
            (Ask::Parse(a), Ask::Parse(b)) => same(a, b),
            (Ask::Parse32(a), Ask::Parse32(b)) => same(a, b),
            (Ask::Narrow(a), Ask::Narrow(b)) => *a == *b,
            (Ask::Int32(a), Ask::Int32(b)) => *a == *b,
            (Ask::Show(a), Ask::Show(b)) => *a == *b,
            (Ask::Show32(a), Ask::Show32(b)) => *a == *b,
            (Ask::Spell(a), Ask::Spell(b)) => *a == *b,
            (Ask::Apply2(o, a, b), Ask::Apply2(p, c, d)) => *o == *p && *a == *c && *b == *d,
            (Ask::Apply1(f, a), Ask::Apply1(g, b)) => *f == *g && *a == *b,
            (Ask::Places(a, n), Ask::Places(b, m)) => *a == *b && *n == *m,
            (Ask::Total(a), Ask::Total(b)) => same_u64s(a, b),
            (Ask::Draw(p, a, b, c), Ask::Draw(q, x, y, z)) => same_u64s(p, q) && *a == *x && *b
                == *y && *c == *z,
            (Ask::Distance(m, a, b), Ask::Distance(n, c, d)) => *m == *n && same_u32s(a, c)
                && same_u32s(b, d),
            (Ask::Graph(a), Ask::Graph(b)) => same(a, b),
            (Ask::Nearest(a, q, k, e), Ask::Nearest(b, p, j, f)) => same(a, b) && same_u32s(q, p)
                && *k == *j && *e == *f,
            _ => false,
        }
    }
}

impl Reals {
    pub fn new() -> (r: Reals)
        ensures
            r@ == Seq::<(AskV, AnswerV)>::empty(),
    {
        let r = Reals { entries: Vec::new() };
        assert(r@ =~= Seq::<(AskV, AnswerV)>::empty());
        r
    }

    /// File an answer behind those already given.
    pub fn file(&mut self, ask: Ask, answer: Answer)
        ensures
            final(self)@ == old(self)@.push((ask@, answer@)),
    {
        self.entries.push((ask, answer));
        assert(self@ =~= old(self)@.push((ask@, answer@)));
    }

    fn find(&self, ask: &Ask) -> (r: Option<&Answer>)
        ensures
            match r {
                Some(a) => answer_to(self@, ask@) == Some(a@),
                None => answer_to(self@, ask@) is None,
            },
    {
        let mut i: usize = 0;
        assert(self@.skip(0) =~= self@);
        while i < self.entries.len()
            invariant
                i <= self.entries.len(),
                answer_to(self@.skip(i as int), ask@) == answer_to(self@, ask@),
            decreases self.entries.len() - i,
        {
            assert(self@.skip(i as int)[0] == self@[i as int]);
            assert(self@.skip(i as int).drop_first() =~= self@.skip(i + 1));
            if self.entries[i].0.matches(ask) {
                return Some(&self.entries[i].1);
            }
            i += 1;
        }
        None
    }
}

/// The double answering an ask, or the ask itself while it is open.
pub open spec fn bits_of(t: RealsV, ask: AskV) -> Result<u64, StopV> {
    match answer_to(t, ask) {
        Some(AnswerV::Bits(b)) => Ok(b),
        _ => Err(StopV::Need(ask)),
    }
}

pub open spec fn number_of(t: RealsV, text: Seq<char>) -> Result<Option<u64>, StopV> {
    match answer_to(t, AskV::Parse(text)) {
        Some(AnswerV::Number(o)) => Ok(o),
        _ => Err(StopV::Need(AskV::Parse(text))),
    }
}

pub open spec fn number32_of(t: RealsV, text: Seq<char>) -> Result<Option<u32>, StopV> {
    match answer_to(t, AskV::Parse32(text)) {
        Some(AnswerV::Number32(o)) => Ok(o),
        _ => Err(StopV::Need(AskV::Parse32(text))),
    }
}

/// The float answering an ask that always has one.
pub open spec fn float_of(t: RealsV, ask: AskV) -> Result<u32, StopV> {
    match answer_to(t, ask) {
        Some(AnswerV::Number32(Some(b))) => Ok(b),
        _ => Err(StopV::Need(ask)),
    }
}

pub open spec fn shown(t: RealsV, ask: AskV) -> Result<Seq<char>, StopV> {
    match answer_to(t, ask) {
        Some(AnswerV::Text(s)) => Ok(s),
        _ => Err(StopV::Need(ask)),
    }
}

/// The state of a graph, as answered.
pub open spec fn graph_of(t: RealsV, index: Seq<char>) -> Result<(u64, u64), StopV> {
    match answer_to(t, AskV::Graph(index)) {
        Some(AnswerV::Graph(n, f)) => Ok((n, f)),
        _ => Err(StopV::Need(AskV::Graph(index))),
    }
}

/// The version ids answering a search.
pub open spec fn ids_of(t: RealsV, ask: AskV) -> Result<Seq<u64>, StopV> {
    match answer_to(t, ask) {
        Some(AnswerV::Ids(v)) => Ok(v),
        _ => Err(StopV::Need(ask)),
    }
}

impl Reals {
    /// The state of a graph.
    pub fn graph(&self, index: &str) -> (r: Result<(u64, u64), Stop>)
        ensures
            match r {
                Ok(p) => graph_of(self@, index@) == Ok::<(u64, u64), StopV>(p),
                Err(s) => graph_of(self@, index@) == Err::<(u64, u64), StopV>(s@),
            },
    {
        let ask = Ask::Graph(owned(index));
        match self.find(&ask) {
            Some(Answer::Graph(n, f)) => Ok((*n, *f)),
            _ => Err(Stop::Need(ask)),
        }
    }

    /// The version ids asked for.
    pub fn ids(&self, ask: Ask) -> (r: Result<&Vec<u64>, Stop>)
        ensures
            match r {
                Ok(v) => ids_of(self@, ask@) == Ok::<Seq<u64>, StopV>(v@),
                Err(s) => ids_of(self@, ask@) == Err::<Seq<u64>, StopV>(s@),
            },
    {
        match self.find(&ask) {
            Some(Answer::Ids(v)) => Ok(v),
            _ => Err(Stop::Need(ask)),
        }
    }

    pub fn bits(&self, ask: Ask) -> (r: Result<u64, Stop>)
        ensures
            match r {
                Ok(b) => bits_of(self@, ask@) == Ok::<u64, StopV>(b),
                Err(s) => bits_of(self@, ask@) == Err::<u64, StopV>(s@),
            },
    {
        match self.find(&ask) {
            Some(Answer::Bits(b)) => Ok(*b),
            _ => Err(Stop::Need(ask)),
        }
    }

    /// The double a text denotes.
    pub fn number(&self, text: &[char]) -> (r: Result<Option<u64>, Stop>)
        ensures
            match r {
                Ok(o) => number_of(self@, text@) == Ok::<Option<u64>, StopV>(o),
                Err(s) => number_of(self@, text@) == Err::<Option<u64>, StopV>(s@),
            },
    {
        let ask = Ask::Parse(from_chars(text));
        match self.find(&ask) {
            Some(Answer::Number(o)) => Ok(*o),
            _ => Err(Stop::Need(ask)),
        }
    }

    /// The float a text denotes.
    pub fn number32(&self, text: &[char]) -> (r: Result<Option<u32>, Stop>)
        ensures
            match r {
                Ok(o) => number32_of(self@, text@) == Ok::<Option<u32>, StopV>(o),
                Err(s) => number32_of(self@, text@) == Err::<Option<u32>, StopV>(s@),
            },
    {
        let ask = Ask::Parse32(from_chars(text));
        match self.find(&ask) {
            Some(Answer::Number32(o)) => Ok(*o),
            _ => Err(Stop::Need(ask)),
        }
    }

    /// The float asked for.
    pub fn float(&self, ask: Ask) -> (r: Result<u32, Stop>)
        ensures
            match r {
                Ok(b) => float_of(self@, ask@) == Ok::<u32, StopV>(b),
                Err(s) => float_of(self@, ask@) == Err::<u32, StopV>(s@),
            },
    {
        match self.find(&ask) {
            Some(Answer::Number32(Some(b))) => Ok(*b),
            _ => Err(Stop::Need(ask)),
        }
    }

    /// The decimal text asked for.
    pub fn show(&self, ask: Ask) -> (r: Result<String, Stop>)
        ensures
            match r {
                Ok(t) => shown(self@, ask@) == Ok::<Seq<char>, StopV>(t@),
                Err(s) => shown(self@, ask@) == Err::<Seq<char>, StopV>(s@),
            },
    {
        match self.find(&ask) {
            Some(Answer::Text(t)) => Ok(owned(t.as_str())),
            _ => Err(Stop::Need(ask)),
        }
    }
}

} // verus!
