//! The principal of a connection: who it acts for.
//!
//! Whoever opens a connection has checked an identity already and hands over its
//! role and its claims. The engine keeps them as they are and reads them.
use vstd::prelude::*;
use crate::asks::{Reals, RealsV, Stop, StopV};
use crate::catalog::{clone_opt_string, opt_text};
use crate::json::{document, member, plain_text, Json};
use crate::text::from_chars;

verus! {

/// The role of a connection that has taken none.
pub const ANON_ROLE: &'static str = "anon";

/// What a connection acts as: its role, the text of its claims, and whether it is
/// exempt from row policies.
pub struct SessionContext {
    role: Option<String>,
    claims: Option<String>,
    bypass: bool,
}

pub struct SessionV {
    pub role: Option<Seq<char>>,
    pub claims: Option<Seq<char>>,
    pub bypass: bool,
}

impl View for SessionContext {
    type V = SessionV;

    closed spec fn view(&self) -> SessionV {
        SessionV {
            role: opt_text(self.role),
            claims: opt_text(self.claims),
            bypass: self.bypass,
        }
    }
}

pub open spec fn new_session() -> SessionV {
    SessionV { role: None, claims: None, bypass: false }
}

/// The role in effect.
pub open spec fn role_of(s: SessionV) -> Seq<char> {
    match s.role {
        Some(r) => r,
        None => ANON_ROLE@,
    }
}

/// A claim as text. There is none where no claims are set, where they are no JSON
/// document, or where the key is missing or null.
pub open spec fn claim_of(s: SessionV, key: Seq<char>, t: RealsV) -> Result<
    Option<Seq<char>>,
    StopV,
> {
    match s.claims {
        None => Ok(None),
        Some(raw) => match document(raw) {
            None => Ok(None),
            Some(j) => match member(j, key) {
                None => Ok(None),
                Some(v) => plain_text(t, v),
            },
        },
    }
}

pub open spec fn claim_result(r: Result<Option<String>, Stop>) -> Result<
    Option<Seq<char>>,
    StopV,
> {
    match r {
        Ok(o) => Ok(opt_text(o)),
        Err(s) => Err(s@),
    }
}

/// A change of the principal.
#[derive(Debug)]
pub enum SessionSet {
    Role(Option<String>),
    Claims(Option<String>),
    Bypass(bool),
}

/// What a [`SessionSet`] says.
pub enum SessionSetV {
    Role(Option<Seq<char>>),
    Claims(Option<Seq<char>>),
    Bypass(bool),
}

impl View for SessionSet {
    type V = SessionSetV;

    open spec fn view(&self) -> SessionSetV {
        match self {
            SessionSet::Role(r) => SessionSetV::Role(opt_text(*r)),
            SessionSet::Claims(c) => SessionSetV::Claims(opt_text(*c)),
            SessionSet::Bypass(on) => SessionSetV::Bypass(*on),
        }
    }
}

pub open spec fn session_after(s: SessionV, set: SessionSetV) -> SessionV {
    match set {
        SessionSetV::Role(role) => SessionV { role, ..s },
        SessionSetV::Claims(claims) => SessionV { claims, ..s },
        SessionSetV::Bypass(bypass) => SessionV { bypass, ..s },
    }
}

impl Clone for SessionContext {
    fn clone(&self) -> (r: SessionContext)
        ensures
            r@ == self@,
    {
        SessionContext {
            role: clone_opt_string(&self.role),
            claims: clone_opt_string(&self.claims),
            bypass: self.bypass,
        }
    }
}

impl Default for SessionContext {
    fn default() -> (r: SessionContext)
        ensures
            r@ == new_session(),
    {
        SessionContext { role: None, claims: None, bypass: false }
    }
}

impl SessionContext {
    /// The role in effect, [`ANON_ROLE`] where none is set.
    pub fn role(&self) -> (r: &str)
        ensures
            r@ == role_of(self@),
    {
        match &self.role {
            Some(r) => r.as_str(),
            None => ANON_ROLE,
        }
    }

    pub fn set_role(&mut self, role: Option<String>)
        ensures
            final(self)@ == (SessionV { role: opt_text(role), ..old(self)@ }),
    {
        self.role = role;
    }

    /// Keep claims as they are; they are not checked here.
    pub fn set_claims(&mut self, claims: Option<String>)
        ensures
            final(self)@ == (SessionV { claims: opt_text(claims), ..old(self)@ }),
    {
        self.claims = claims;
    }

    pub fn set_bypass(&mut self, on: bool)
        ensures
            final(self)@ == (SessionV { bypass: on, ..old(self)@ }),
    {
        self.bypass = on;
    }

    pub fn bypass(&self) -> (r: bool)
        ensures
            r == self@.bypass,
    {
        self.bypass
    }

    pub fn apply(&mut self, set: &SessionSet)
        ensures
            final(self)@ == session_after(old(self)@, set@),
    {
        match set {
            SessionSet::Role(r) => self.set_role(clone_opt_string(r)),
            SessionSet::Claims(c) => self.set_claims(clone_opt_string(c)),
            SessionSet::Bypass(on) => self.set_bypass(*on),
        }
    }

    /// The subject of the claims.
    pub fn uid(&self, reals: &Reals) -> (r: Result<Option<String>, Stop>)
        ensures
            claim_result(r) == claim_of(self@, "sub"@, reals@),
    {
        self.claim("sub", reals)
    }

    /// A claim as text.
    pub fn claim(&self, key: &str, reals: &Reals) -> (r: Result<Option<String>, Stop>)
        ensures
            claim_result(r) == claim_of(self@, key@, reals@),
    {
        match &self.claims {
            None => Ok(None),
            Some(raw) => match Json::parse(raw) {
                None => Ok(None),
                Some(j) => match j.get_key(key) {
                    None => Ok(None),
                    Some(v) => match v.as_text(reals) {
                        Err(s) => Err(s),
                        Ok(None) => Ok(None),
                        Ok(Some(cs)) => Ok(Some(from_chars(cs.as_slice()))),
                    },
                },
            },
        }
    }
}

} // verus!
