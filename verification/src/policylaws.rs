//! Which policies decide over a row.
use vstd::prelude::*;
use crate::asks::{RealsV, StopV};
use crate::catalog::{PolicyCommand, PolicyV, SchemaV};
use crate::env::EnvV;
use crate::grammar::stored_expr;
use crate::policy::{concerns, condition, conditions_from, enforced, gate_of};
use crate::session::role_of;
use crate::sql::ExprV;
use crate::store::name_pos;
use crate::text::same_name;

verus! {

/// A name is among others just when one of them is the same, whatever the case.
pub proof fn law_names_are_found(names: Seq<Seq<char>>, name: Seq<char>)
    ensures
        name_pos(names, name, 0) is Some <==> exists|i: int|
            0 <= i < names.len() && same_name(#[trigger] names[i], name),
        name_pos(names, name, 0) matches Some(k) ==> 0 <= k < names.len() && same_name(
            names[k],
            name,
        ) && forall|i: int| 0 <= i < k ==> !same_name(#[trigger] names[i], name),
{
    lemma_name_found(names, name, 0);
}

proof fn lemma_name_found(names: Seq<Seq<char>>, name: Seq<char>, i: int)
    requires
        0 <= i <= names.len(),
        forall|k: int| 0 <= k < i ==> !same_name(#[trigger] names[k], name),
    ensures
        name_pos(names, name, i) is Some <==> exists|k: int|
            0 <= k < names.len() && same_name(#[trigger] names[k], name),
        name_pos(names, name, i) matches Some(k) ==> 0 <= k < names.len() && same_name(
            names[k],
            name,
        ) && forall|m: int| 0 <= m < k ==> !same_name(#[trigger] names[m], name),
    decreases names.len() - i,
{
    if i < names.len() && !same_name(names[i], name) {
        lemma_name_found(names, name, i + 1);
    }
}

/// A policy is for a statement just when it is for its command, or for all of them, and
/// for the role, or for everyone.
pub proof fn law_policies_concern(p: PolicyV, cmd: PolicyCommand, role: Seq<char>)
    ensures
        concerns(p, cmd, role) <==> {
            &&& p.command == PolicyCommand::All || p.command == cmd
            &&& p.roles.len() == 0 || exists|i: int|
                0 <= i < p.roles.len() && same_name(#[trigger] p.roles[i], role)
        },
{
    law_names_are_found(p.roles, role);
}

/// What a policy asks of a row that is there is its `USING`; of one that is written, its
/// `WITH CHECK`, and without one its `USING` again.
pub proof fn law_conditions(p: PolicyV)
    ensures
        condition(p, false) == p.using,
        p.check is Some ==> condition(p, true) == p.check,
        p.check is None ==> condition(p, true) == p.using,
{
}

/// Whether a condition is that of policy `k`, which is for the statement.
pub open spec fn is_condition(
    ps: Seq<PolicyV>,
    cmd: PolicyCommand,
    writing: bool,
    role: Seq<char>,
    reals: RealsV,
    k: int,
    x: ExprV,
) -> bool {
    &&& has_say(ps[k], cmd, writing, role)
    &&& stored_expr(condition(ps[k], writing)->0, reals) == Ok::<ExprV, StopV>(x)
}

/// Whether a policy is for a statement and asks something.
pub open spec fn has_say(p: PolicyV, cmd: PolicyCommand, writing: bool, role: Seq<char>) -> bool {
    concerns(p, cmd, role) && condition(p, writing) is Some
}

proof fn lemma_conditions(
    ps: Seq<PolicyV>,
    cmd: PolicyCommand,
    writing: bool,
    role: Seq<char>,
    reals: RealsV,
    i: int,
    acc: Seq<ExprV>,
    at: Seq<int>,
) -> (places: Seq<int>)
    requires
        0 <= i <= ps.len(),
        at.len() == acc.len(),
        conditions_from(ps, cmd, writing, role, reals, i, acc) is Ok,
        forall|m: int|
            0 <= m < at.len() ==> 0 <= #[trigger] at[m] < i && is_condition(
                ps,
                cmd,
                writing,
                role,
                reals,
                at[m],
                acc[m],
            ),
        forall|k: int|
            0 <= k < i && has_say(#[trigger] ps[k], cmd, writing, role) ==> at.contains(k),
    ensures
        ({
            let out = conditions_from(ps, cmd, writing, role, reals, i, acc)->Ok_0;
            &&& places.len() == out.len()
            &&& forall|m: int|
                0 <= m < places.len() ==> 0 <= #[trigger] places[m] < ps.len() && is_condition(
                    ps,
                    cmd,
                    writing,
                    role,
                    reals,
                    places[m],
                    out[m],
                )
            &&& forall|k: int|
                0 <= k < ps.len() && has_say(#[trigger] ps[k], cmd, writing, role)
                    ==> places.contains(k)
        }),
    decreases ps.len() - i,
{
    if i < ps.len() {
        if has_say(ps[i], cmd, writing, role) {
            let x = stored_expr(condition(ps[i], writing)->0, reals)->Ok_0;
            let (more, next) = (acc.push(x), at.push(i));
            assert forall|m: int| 0 <= m < next.len() implies 0 <= #[trigger] next[m] < i + 1
                && is_condition(ps, cmd, writing, role, reals, next[m], more[m]) by {
                if m < at.len() {
                    assert(next[m] == at[m] && more[m] == acc[m]);
                }
            }
            assert forall|k: int|
                0 <= k < i + 1 && has_say(
                    #[trigger] ps[k],
                    cmd,
                    writing,
                    role,
                ) implies next.contains(k) by {
                if k < i {
                    let m = choose|m: int| 0 <= m < at.len() && at[m] == k;
                    assert(next[m] == k);
                } else {
                    assert(next[at.len() as int] == i);
                }
            }
            lemma_conditions(ps, cmd, writing, role, reals, i + 1, more, next)
        } else {
            lemma_conditions(ps, cmd, writing, role, reals, i + 1, acc, at)
        }
    } else {
        at
    }
}

/// What decides over the rows of a guarded table: the conditions of just the policies
/// that are for the command and the role. Where row security is off, or the principal is
/// let past it, nothing does.
pub proof fn law_gates(
    schema: SchemaV,
    cmd: PolicyCommand,
    writing: bool,
    env: EnvV,
) -> (places: Seq<int>)
    requires
        gate_of(schema, cmd, writing, env) is Ok,
    ensures
        ({
            let gate = gate_of(schema, cmd, writing, env)->Ok_0;
            let role = role_of(env.session);
            let ps = schema.policies;
            &&& gate is Some <==> schema.rls_enabled && !env.session.bypass
            &&& gate matches Some(conds) ==> {
                &&& places.len() == conds.len()
                &&& forall|m: int|
                    0 <= m < places.len() ==> 0 <= #[trigger] places[m] < ps.len()
                        && is_condition(ps, cmd, writing, role, env.reals, places[m], conds[m])
                &&& forall|k: int|
                    0 <= k < ps.len() && has_say(#[trigger] ps[k], cmd, writing, role)
                        ==> places.contains(k)
            }
        }),
{
    if enforced(schema, env) {
        lemma_conditions(
            schema.policies,
            cmd,
            writing,
            role_of(env.session),
            env.reals,
            0,
            Seq::empty(),
            Seq::empty(),
        )
    } else {
        Seq::empty()
    }
}

} // verus!
