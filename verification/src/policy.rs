//! Row policies: which rows of a table a principal may read, and which it may
//! write.
//!
//! Where a table enforces them, a row passes by any one of the policies that are
//! for the statement and for the role in effect. Without such a policy no row
//! passes. A session that is exempt passes everywhere.
use vstd::prelude::*;
use crate::asks::{RealsV, Stop, StopV};
use crate::catalog::{
    opt_text, policies_view, strings_view, Policy, PolicyCommand, PolicyV, SchemaV, TableSchema,
};
use crate::constraints::unbound;
use crate::env::{fail, place_in, within, Env, EnvV, IN_POLICY};
use crate::error::{constraint_err, EngineError};
use crate::eval::{ev, eval, group_view, row_ctx, CtxV, EvalCtx};
use crate::grammar::stored_expr;
use crate::pexpr::parse_expr;
use crate::query::group_result;
use crate::session::role_of;
use crate::sql::{exprs_view, Expr, ExprV};
use crate::store::name_pos;
use crate::text::{concat2, names_match};
use crate::value::{row_view, truth, RowV, Value, ValueV};

verus! {

/// Whether a table's policies bind a statement.
pub open spec fn enforced(schema: SchemaV, env: EnvV) -> bool {
    schema.rls_enabled && !env.session.bypass
}

/// Whether a policy is for a command and a role.
pub open spec fn concerns(p: PolicyV, cmd: PolicyCommand, role: Seq<char>) -> bool {
    (p.command == PolicyCommand::All || p.command == cmd) && (p.roles.len() == 0 || name_pos(
        p.roles,
        role,
        0,
    ) is Some)
}

/// What a policy asks of a row. One that is to be written is held against
/// `WITH CHECK`, or against `USING` where there is none.
pub open spec fn condition(p: PolicyV, writing: bool) -> Option<Seq<char>> {
    if writing && p.check is Some {
        p.check
    } else {
        p.using
    }
}

/// The conditions of the policies from `i` on, behind `acc`.
pub open spec fn conditions_from(
    ps: Seq<PolicyV>,
    cmd: PolicyCommand,
    writing: bool,
    role: Seq<char>,
    reals: RealsV,
    i: int,
    acc: Seq<ExprV>,
) -> Result<Seq<ExprV>, StopV>
    decreases ps.len() - i,
{
    if i < 0 || i >= ps.len() {
        Ok(acc)
    } else if !concerns(ps[i], cmd, role) {
        conditions_from(ps, cmd, writing, role, reals, i + 1, acc)
    } else {
        match condition(ps[i], writing) {
            None => conditions_from(ps, cmd, writing, role, reals, i + 1, acc),
            Some(text) => match stored_expr(text, reals) {
                Err(e) => Err(e),
                Ok(x) => conditions_from(ps, cmd, writing, role, reals, i + 1, acc.push(x)),
            },
        }
    }
}

/// The conditions one of which a row has to meet; `None` where there is nothing to
/// meet.
pub open spec fn gate_of(schema: SchemaV, cmd: PolicyCommand, writing: bool, env: EnvV) -> Result<
    Option<Seq<ExprV>>,
    StopV,
> {
    if !enforced(schema, env) {
        Ok(None)
    } else {
        match conditions_from(
            schema.policies,
            cmd,
            writing,
            role_of(env.session),
            env.reals,
            0,
            Seq::empty(),
        ) {
            Err(e) => Err(e),
            Ok(v) => Ok(Some(v)),
        }
    }
}

/// Whether one of the conditions from `i` on holds.
pub open spec fn met_from(conds: Seq<ExprV>, c: CtxV, env: EnvV, i: int) -> Result<bool, StopV>
    decreases conds.len() - i,
{
    if i < 0 || i >= conds.len() {
        Ok(false)
    } else {
        match ev(conds[i], c, unbound(within(env, IN_POLICY, i as u64))) {
            Err(e) => Err(e),
            Ok(v) => if truth(v) == Some(true) {
                Ok(true)
            } else {
                met_from(conds, c, env, i + 1)
            },
        }
    }
}

/// Whether a row meets one of the conditions, where there is anything to meet.
pub open spec fn passes(
    gate: Option<Seq<ExprV>>,
    schema: SchemaV,
    row: RowV,
    tick: u64,
    env: EnvV,
) -> Result<bool, StopV> {
    match gate {
        None => Ok(true),
        Some(conds) => met_from(conds, row_ctx(row, schema, tick), env, 0),
    }
}

/// The rows from `i` on that pass, behind `acc`.
pub open spec fn passing_from(
    gate: Option<Seq<ExprV>>,
    schema: SchemaV,
    rows: Seq<RowV>,
    env: EnvV,
    i: int,
    acc: Seq<RowV>,
) -> Result<Seq<RowV>, StopV>
    decreases rows.len() - i,
{
    if i < 0 || i >= rows.len() {
        Ok(acc)
    } else {
        match passes(gate, schema, rows[i], i as u64, env) {
            Err(e) => Err(e),
            Ok(true) => passing_from(gate, schema, rows, env, i + 1, acc.push(rows[i])),
            Ok(false) => passing_from(gate, schema, rows, env, i + 1, acc),
        }
    }
}

/// The rows of a table that the principal may read.
pub open spec fn readable(schema: SchemaV, rows: Seq<RowV>, env: EnvV) -> Result<Seq<RowV>, StopV> {
    match gate_of(schema, PolicyCommand::Select, false, env) {
        Err(e) => Err(e),
        Ok(gate) => passing_from(gate, schema, rows, env, 0, Seq::empty()),
    }
}

/// What the policies ask of the rows that a statement touches: of those that are
/// there, and of those that it writes.
pub struct Guard {
    pub using: Option<Vec<Expr>>,
    pub check: Option<Vec<Expr>>,
}

pub struct GuardV {
    pub using: Option<Seq<ExprV>>,
    pub check: Option<Seq<ExprV>>,
}

impl View for Guard {
    type V = GuardV;

    open spec fn view(&self) -> GuardV {
        GuardV { using: gate_view(self.using), check: gate_view(self.check) }
    }
}

pub open spec fn guard_of(schema: SchemaV, cmd: PolicyCommand, env: EnvV) -> Result<GuardV, StopV> {
    match gate_of(schema, cmd, false, env) {
        Err(e) => Err(e),
        Ok(using) => match gate_of(schema, cmd, true, env) {
            Err(e) => Err(e),
            Ok(check) => Ok(GuardV { using, check }),
        },
    }
}

pub open spec fn guard_result(r: Result<Guard, Stop>) -> Result<GuardV, StopV> {
    match r {
        Ok(g) => Ok(g@),
        Err(s) => Err(s@),
    }
}

/// A row that the policies keep from being written.
pub open spec fn policy_fail(table: Seq<char>) -> StopV {
    fail(constraint_err("new row violates row-level security policy: "@ + table))
}

/// A row has to pass.
pub open spec fn let_through(
    gate: Option<Seq<ExprV>>,
    schema: SchemaV,
    table: Seq<char>,
    row: RowV,
    tick: u64,
    env: EnvV,
) -> Result<(), StopV> {
    match passes(gate, schema, row, tick, env) {
        Err(e) => Err(e),
        Ok(true) => Ok(()),
        Ok(false) => Err(policy_fail(table)),
    }
}

pub open spec fn gate_view(g: Option<Vec<Expr>>) -> Option<Seq<ExprV>> {
    match g {
        Some(v) => Some(exprs_view(v@)),
        None => None,
    }
}

pub open spec fn gate_result(r: Result<Option<Vec<Expr>>, Stop>) -> Result<
    Option<Seq<ExprV>>,
    StopV,
> {
    match r {
        Ok(g) => Ok(gate_view(g)),
        Err(s) => Err(s@),
    }
}

pub open spec fn pass_result(r: Result<bool, Stop>) -> Result<bool, StopV> {
    match r {
        Ok(b) => Ok(b),
        Err(s) => Err(s@),
    }
}

fn names_role(roles: &Vec<String>, role: &str) -> (r: bool)
    ensures
        r == (name_pos(strings_view(roles@), role@, 0) is Some),
{
    let ghost rv = strings_view(roles@);
    let mut i: usize = 0;
    while i < roles.len()
        invariant
            i <= roles.len(),
            rv == strings_view(roles@),
            name_pos(rv, role@, i as int) == name_pos(rv, role@, 0),
        decreases roles.len() - i,
    {
        assert(rv[i as int] == roles@[i as int]@);
        if names_match(&roles[i], role) {
            return true;
        }
        i += 1;
    }
    false
}

fn is_for(p: &Policy, cmd: PolicyCommand, role: &str) -> (r: bool)
    ensures
        r == concerns(p@, cmd, role@),
{
    (p.command == PolicyCommand::All || p.command == cmd) && (p.roles.len() == 0 || names_role(
        &p.roles,
        role,
    ))
}

/// Read the conditions that a statement's rows are held against.
pub fn read_gate(schema: &TableSchema, cmd: PolicyCommand, writing: bool, env: &Env) -> (r: Result<
    Option<Vec<Expr>>,
    Stop,
>)
    ensures
        gate_result(r) == gate_of(schema@, cmd, writing, env@),
{
    if !schema.rls_enabled || env.session.bypass() {
        return Ok(None);
    }
    let ghost pv = policies_view(schema.policies@);
    let ghost role = role_of(env@.session);
    let mut out: Vec<Expr> = Vec::new();
    assert(exprs_view(out@) =~= Seq::<ExprV>::empty());
    let mut i: usize = 0;
    while i < schema.policies.len()
        invariant
            i <= schema.policies.len(),
            pv == policies_view(schema.policies@),
            pv == schema@.policies,
            role == role_of(env@.session),
            enforced(schema@, env@),
            conditions_from(pv, cmd, writing, role, env@.reals, i as int, exprs_view(out@))
                == conditions_from(pv, cmd, writing, role, env@.reals, 0, Seq::empty()),
        decreases schema.policies.len() - i,
    {
        let p = &schema.policies[i];
        assert(pv[i as int] == p@);
        if is_for(p, cmd, env.session.role()) {
            let text = if writing && p.check.is_some() {
                &p.check
            } else {
                &p.using
            };
            assert(opt_text(*text) == condition(p@, writing));
            match text {
                None => {},
                Some(t) => {
                    let x = parse_expr(t, env.reals)?;
                    let ghost before = exprs_view(out@);
                    let ghost xv = x@;
                    out.push(x);
                    assert(exprs_view(out@) =~= before.push(xv));
                },
            }
        }
        i += 1;
    }
    Ok(Some(out))
}

/// Hold a row against the conditions.
pub fn admits(gate: &Option<Vec<Expr>>, schema: &TableSchema, row: &[Value], tick: u64, env: &Env) -> (r:
    Result<bool, Stop>)
    ensures
        pass_result(r) == passes(gate_view(*gate), schema@, row_view(row@), tick, env@),
{
    match gate {
        None => Ok(true),
        Some(conds) => {
            let ghost cv = exprs_view(conds@);
            let none: Vec<Value> = Vec::new();
            assert(row_view(none@) =~= Seq::<ValueV>::empty());
            let ctx = EvalCtx::row(row, schema, tick);
            let mut i: usize = 0;
            while i < conds.len()
                invariant
                    i <= conds.len(),
                    cv == exprs_view(conds@),
                    *gate == Some(*conds),
                    row_view(none@) == Seq::<ValueV>::empty(),
                    ctx@ == row_ctx(row_view(row@), schema@, tick),
                    met_from(cv, ctx@, env@, i as int) == met_from(cv, ctx@, env@, 0),
                decreases conds.len() - i,
            {
                assert(cv[i as int] == conds@[i as int]@);
                let place = place_in(env, IN_POLICY, i as u64);
                let bare = Env {
                    reals: env.reals,
                    now: env.now,
                    params: none.as_slice(),
                    session: env.session,
                    place: place.as_slice(),
                };
                assert(bare@ == unbound(within(env@, IN_POLICY, i as u64)));
                let v = eval(&conds[i], &ctx, &bare)?;
                if v.as_bool() == Some(true) {
                    return Ok(true);
                }
                i += 1;
            }
            Ok(false)
        },
    }
}

/// Read what the policies ask for a command.
pub fn read_guard(schema: &TableSchema, cmd: PolicyCommand, env: &Env) -> (r: Result<Guard, Stop>)
    ensures
        guard_result(r) == guard_of(schema@, cmd, env@),
{
    let using = read_gate(schema, cmd, false, env)?;
    let check = read_gate(schema, cmd, true, env)?;
    Ok(Guard { using, check })
}

/// Refuse a row that does not pass.
pub fn require(
    gate: &Option<Vec<Expr>>,
    schema: &TableSchema,
    table: &str,
    row: &[Value],
    tick: u64,
    env: &Env,
) -> (r: Result<(), Stop>)
    ensures
        let_through(gate_view(*gate), schema@, table@, row_view(row@), tick, env@) == (match r {
            Ok(_) => Ok(()),
            Err(s) => Err(s@),
        }),
{
    if admits(gate, schema, row, tick, env)? {
        Ok(())
    } else {
        Err(
            Stop::Fail(
                EngineError::constraint(
                    concat2("new row violates row-level security policy: ", table),
                ),
            ),
        )
    }
}

/// Keep the rows that the principal may read.
pub fn screen<'a>(schema: &TableSchema, rows: Vec<&'a [Value]>, env: &Env) -> (r: Result<
    Vec<&'a [Value]>,
    Stop,
>)
    ensures
        group_result(r) == readable(schema@, group_view(rows@), env@),
{
    let gate = read_gate(schema, PolicyCommand::Select, false, env)?;
    let ghost g = gate_view(gate);
    let ghost rv = group_view(rows@);
    if gate.is_none() {
        proof {
            lemma_open_gate(schema@, rv, env@, 0, Seq::empty());
            assert(rv.skip(0) =~= rv);
            assert(Seq::<RowV>::empty() + rv =~= rv);
        }
        return Ok(rows);
    }
    let mut out: Vec<&'a [Value]> = Vec::new();
    assert(group_view(out@) =~= Seq::<RowV>::empty());
    let mut i: usize = 0;
    while i < rows.len()
        invariant
            i <= rows.len(),
            g == gate_view(gate),
            rv == group_view(rows@),
            gate_of(schema@, PolicyCommand::Select, false, env@) == Ok::<
                Option<Seq<ExprV>>,
                StopV,
            >(g),
            passing_from(g, schema@, rv, env@, i as int, group_view(out@)) == passing_from(
                g,
                schema@,
                rv,
                env@,
                0,
                Seq::empty(),
            ),
        decreases rows.len() - i,
    {
        assert(rv[i as int] == row_view(rows@[i as int]@));
        if admits(&gate, schema, rows[i], i as u64, env)? {
            let ghost before = group_view(out@);
            out.push(rows[i]);
            assert(group_view(out@) =~= before.push(rv[i as int]));
        }
        i += 1;
    }
    Ok(out)
}

proof fn lemma_open_gate(schema: SchemaV, rows: Seq<RowV>, env: EnvV, i: int, acc: Seq<RowV>)
    requires
        0 <= i <= rows.len(),
    ensures
        passing_from(None, schema, rows, env, i, acc) == Ok::<Seq<RowV>, StopV>(
            acc + rows.skip(i),
        ),
    decreases rows.len() - i,
{
    if i < rows.len() {
        lemma_open_gate(schema, rows, env, i + 1, acc.push(rows[i]));
        assert(acc.push(rows[i]) + rows.skip(i + 1) =~= acc + rows.skip(i));
    } else {
        assert(acc + rows.skip(i) =~= acc);
    }
}

// ---- laws ------------------------------------------------------------------------------------------

/// A table that enforces no policies, and a session that is exempt, hide nothing.
pub proof fn law_unguarded_rows_are_readable(schema: SchemaV, rows: Seq<RowV>, env: EnvV)
    requires
        !schema.rls_enabled || env.session.bypass,
    ensures
        readable(schema, rows, env) == Ok::<Seq<RowV>, StopV>(rows),
{
    lemma_open_gate(schema, rows, env, 0, Seq::empty());
    assert(Seq::<RowV>::empty() + rows.skip(0) =~= rows);
}

proof fn lemma_no_conditions(
    ps: Seq<PolicyV>,
    cmd: PolicyCommand,
    writing: bool,
    role: Seq<char>,
    reals: RealsV,
    i: int,
    acc: Seq<ExprV>,
)
    requires
        0 <= i <= ps.len(),
        forall|k: int| 0 <= k < ps.len() ==> !concerns(#[trigger] ps[k], cmd, role),
    ensures
        conditions_from(ps, cmd, writing, role, reals, i, acc) == Ok::<Seq<ExprV>, StopV>(acc),
    decreases ps.len() - i,
{
    if i < ps.len() {
        lemma_no_conditions(ps, cmd, writing, role, reals, i + 1, acc);
    }
}

proof fn lemma_shut_gate(schema: SchemaV, rows: Seq<RowV>, env: EnvV, i: int, acc: Seq<RowV>)
    requires
        0 <= i <= rows.len(),
    ensures
        passing_from(Some(Seq::empty()), schema, rows, env, i, acc) == Ok::<Seq<RowV>, StopV>(acc),
    decreases rows.len() - i,
{
    if i < rows.len() {
        lemma_shut_gate(schema, rows, env, i + 1, acc);
    }
}

/// Where policies are enforced and none is for the role, no row is readable and
/// none may be written.
pub proof fn law_default_deny(
    schema: SchemaV,
    rows: Seq<RowV>,
    cmd: PolicyCommand,
    writing: bool,
    row: RowV,
    tick: u64,
    env: EnvV,
)
    requires
        enforced(schema, env),
        forall|k: int, c: PolicyCommand|
            0 <= k < schema.policies.len() ==> !(#[trigger] concerns(
                schema.policies[k],
                c,
                role_of(env.session),
            )),
    ensures
        readable(schema, rows, env) == Ok::<Seq<RowV>, StopV>(Seq::empty()),
        gate_of(schema, cmd, writing, env) matches Ok(gate) && passes(
            gate,
            schema,
            row,
            tick,
            env,
        ) == Ok::<bool, StopV>(false),
{
    let role = role_of(env.session);
    lemma_no_conditions(
        schema.policies,
        PolicyCommand::Select,
        false,
        role,
        env.reals,
        0,
        Seq::empty(),
    );
    lemma_no_conditions(schema.policies, cmd, writing, role, env.reals, 0, Seq::empty());
    lemma_shut_gate(schema, rows, env, 0, Seq::empty());
}

/// Whether a row stands among `rows` and is let through there.
pub open spec fn came_through(
    gate: Option<Seq<ExprV>>,
    schema: SchemaV,
    rows: Seq<RowV>,
    env: EnvV,
    row: RowV,
) -> bool {
    exists|k: int|
        0 <= k < rows.len() && rows[k] == row && #[trigger] passes(
            gate,
            schema,
            rows[k],
            k as u64,
            env,
        ) == Ok::<bool, StopV>(true)
}

proof fn lemma_passing(
    gate: Option<Seq<ExprV>>,
    schema: SchemaV,
    rows: Seq<RowV>,
    env: EnvV,
    i: int,
    acc: Seq<RowV>,
)
    requires
        0 <= i <= rows.len(),
        forall|j: int| 0 <= j < acc.len() ==> came_through(gate, schema, rows, env, #[trigger] acc[j]),
    ensures
        passing_from(gate, schema, rows, env, i, acc) matches Ok(out) ==> forall|j: int|
            0 <= j < out.len() ==> came_through(gate, schema, rows, env, #[trigger] out[j]),
    decreases rows.len() - i,
{
    if i < rows.len() {
        match passes(gate, schema, rows[i], i as u64, env) {
            Err(_) => {},
            Ok(true) => {
                let more = acc.push(rows[i]);
                assert(came_through(gate, schema, rows, env, rows[i]));
                assert forall|j: int| 0 <= j < more.len() implies came_through(
                    gate,
                    schema,
                    rows,
                    env,
                    #[trigger] more[j],
                ) by {
                    if j < acc.len() {
                        assert(more[j] == acc[j]);
                    }
                }
                lemma_passing(gate, schema, rows, env, i + 1, more);
            },
            Ok(false) => lemma_passing(gate, schema, rows, env, i + 1, acc),
        }
    }
}

/// Every row that is read is one of the table's and meets a condition of a policy
/// for reading.
pub proof fn law_readable_rows_pass(schema: SchemaV, rows: Seq<RowV>, env: EnvV)
    ensures
        readable(schema, rows, env) matches Ok(out) ==> (gate_of(
            schema,
            PolicyCommand::Select,
            false,
            env,
        ) matches Ok(gate) && forall|j: int|
            0 <= j < out.len() ==> came_through(gate, schema, rows, env, #[trigger] out[j])),
{
    match gate_of(schema, PolicyCommand::Select, false, env) {
        Err(_) => {},
        Ok(gate) => lemma_passing(gate, schema, rows, env, 0, Seq::empty()),
    }
}

} // verus!
