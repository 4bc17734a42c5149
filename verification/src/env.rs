//! What an evaluation runs against: the answers of the floating-point unit, the
//! time of the statement, the bound parameters, who it runs for, and where in the
//! statement it stands.
use vstd::prelude::*;
use crate::asks::{Reals, RealsV, Stop, StopV};
use crate::error::{sql_err, EngineError, ErrorV};
use crate::session::{SessionContext, SessionV};
use crate::value::{row_view, RowV, Value, ValueV};

verus! {

pub struct Env<'a> {
    pub reals: &'a Reals,
    /// Epoch seconds of the statement.
    pub now: i64,
    pub params: &'a [Value],
    /// The principal of the statement.
    pub session: &'a SessionContext,
    /// Where in the statement this runs; the outside is empty. Random draws at two
    /// places differ.
    pub place: &'a [u64],
}

pub struct EnvV {
    pub reals: RealsV,
    pub now: i64,
    pub params: RowV,
    pub session: SessionV,
    pub place: Seq<u64>,
}

impl<'a> View for Env<'a> {
    type V = EnvV;

    open spec fn view(&self) -> EnvV {
        EnvV {
            reals: self.reals@,
            now: self.now,
            params: row_view(self.params@),
            session: self.session@,
            place: self.place@,
        }
    }
}

/// Inside the use of a view, by where the use stands.
pub const IN_VIEW: u64 = 0;

/// Inside an aggregate, by the ordinal of the group.
pub const IN_GROUP: u64 = 1;

/// Inside a `DEFAULT`.
pub const IN_DEFAULT: u64 = 2;

/// Inside a `CHECK`, by its ordinal.
pub const IN_CHECK: u64 = 3;

/// Inside the condition of a policy, by its ordinal.
pub const IN_POLICY: u64 = 4;

/// Inside a sort key.
pub const IN_ORDER: u64 = 5;

/// The environment one place further in.
pub open spec fn within(env: EnvV, kind: u64, n: u64) -> EnvV {
    EnvV { place: env.place.push(kind).push(n), ..env }
}

/// The place of an environment.
pub fn own_place(env: &Env) -> (r: Vec<u64>)
    ensures
        r@ == env@.place,
{
    let mut out: Vec<u64> = Vec::new();
    let mut i: usize = 0;
    while i < env.place.len()
        invariant
            i <= env.place@.len(),
            out@ == env.place@.take(i as int),
        decreases env.place@.len() - i,
    {
        out.push(env.place[i]);
        assert(env.place@.take(i + 1) =~= env.place@.take(i as int).push(env.place@[i as int]));
        i += 1;
    }
    assert(env.place@.take(i as int) =~= env.place@);
    out
}

/// The place of an environment one further in.
pub fn place_in(env: &Env, kind: u64, n: u64) -> (r: Vec<u64>)
    ensures
        r@ == within(env@, kind, n).place,
{
    let mut out = own_place(env);
    out.push(kind);
    out.push(n);
    out
}

/// What is drawn at two places is drawn apart: a place tells the views, groups, sort
/// keys and kept expressions that lead to it.
pub proof fn law_places_differ(env: EnvV, other: EnvV, kind: u64, n: u64, kind2: u64, n2: u64)
    requires
        within(env, kind, n).place == within(other, kind2, n2).place,
    ensures
        env.place == other.place,
        kind == kind2,
        n == n2,
{
    let a = within(env, kind, n).place;
    let b = within(other, kind2, n2).place;
    assert(a.last() == n && b.last() == n2);
    assert(a.drop_last().last() == kind && b.drop_last().last() == kind2);
    assert(a.drop_last().drop_last() =~= env.place);
    assert(b.drop_last().drop_last() =~= other.place);
}

/// A value, or why there is none.
pub type Out = Result<ValueV, StopV>;

pub open spec fn fail(e: ErrorV) -> StopV {
    StopV::Fail(e)
}

pub open spec fn sql_fail(m: Seq<char>) -> StopV {
    StopV::Fail(sql_err(m))
}

/// A statement error with a message.
pub fn sql_stop(m: String) -> (s: Stop)
    ensures
        s@ == sql_fail(m@),
{
    Stop::Fail(EngineError::sql(m))
}

} // verus!
