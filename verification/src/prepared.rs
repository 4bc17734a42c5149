//! Prepared statements: parameters on the way in, a cursor on the way out.
//!
//! A statement runs once, at its first step; a host runs it and files the result.
use vstd::prelude::*;
use crate::asks::{number_of, Reals, RealsV, Stop};
use crate::base64::{base64_bytes, base64_decode};
use crate::env::Out;
use crate::error::{EngineError, EngineStatus, ErrorV};
use crate::query::{ResultSet, ResultV};
use crate::sql::{Stmt, StmtV};
use crate::text::{
    concat2, from_chars, i64_of_text, nat_string, nat_text, owned, parse_i64, slice_chars, to_chars,
    trim_chars, trimmed,
};
use crate::value::{
    parse_vector, row_view, value_result, vector_of_text, ColumnType, RowV, Value, ValueV,
};
use crate::writes::opt_set_view;

verus! {

pub struct Statement {
    pub stmt: Stmt,
    params: Vec<Value>,
    result: Option<ResultSet>,
    row_idx: usize,
    cur: Option<usize>,
}

pub struct StatementV {
    pub stmt: StmtV,
    pub params: RowV,
    /// The rows, once the statement ran.
    pub result: Option<ResultV>,
    /// How many rows were stepped over.
    pub row_idx: nat,
    /// The row that stands under the cursor.
    pub cur: Option<nat>,
}

impl View for Statement {
    type V = StatementV;

    closed spec fn view(&self) -> StatementV {
        StatementV {
            stmt: self.stmt@,
            params: row_view(self.params@),
            result: opt_set_view(self.result),
            row_idx: self.row_idx as nat,
            cur: match self.cur {
                Some(n) => Some(n as nat),
                None => None,
            },
        }
    }
}

pub open spec fn nulls(n: nat) -> RowV {
    Seq::new(n, |i: int| ValueV::Null)
}

pub open spec fn out_of_range(idx: nat, n: nat) -> ErrorV {
    ErrorV {
        status: EngineStatus::ErrMisuse,
        message: "bind index "@ + nat_text(idx) + " out of range (statement has "@ + (nat_text(n)
            + " parameters)"@),
    }
}

impl Statement {
    /// A statement with `n` parameters, all `NULL`.
    pub fn new(stmt: Stmt, n: usize) -> (r: Statement)
        ensures
            r@ == (StatementV {
                stmt: stmt@,
                params: nulls(n as nat),
                result: None,
                row_idx: 0,
                cur: None,
            }),
    {
        let mut params: Vec<Value> = Vec::new();
        let mut i: usize = 0;
        assert(row_view(params@) =~= nulls(0));
        while i < n
            invariant
                i <= n,
                row_view(params@) == nulls(i as nat),
            decreases n - i,
        {
            let ghost before = row_view(params@);
            params.push(Value::Null);
            assert(row_view(params@) =~= before.push(ValueV::Null));
            assert(nulls((i + 1) as nat) =~= before.push(ValueV::Null));
            i += 1;
        }
        Statement { stmt, params, result: None, row_idx: 0, cur: None }
    }

    pub fn param_count(&self) -> (r: usize)
        ensures
            r == self@.params.len(),
    {
        self.params.len()
    }

    pub fn params(&self) -> (r: &Vec<Value>)
        ensures
            row_view(r@) == self@.params,
    {
        &self.params
    }

    /// Give a parameter, counted from one, its value.
    pub fn bind(&mut self, idx: usize, value: Value) -> (r: Result<(), EngineError>)
        ensures
            match r {
                Ok(_) => 1 <= idx <= old(self)@.params.len() && final(self)@ == (StatementV {
                    params: old(self)@.params.update(idx - 1, value@),
                    ..old(self)@
                }),
                Err(e) => !(1 <= idx <= old(self)@.params.len()) && final(self)@ == old(self)@
                    && e@ == out_of_range(idx as nat, old(self)@.params.len()),
            },
    {
        let n: usize = self.params.len();
        if idx < 1 || idx > n {
            let head = concat2("bind index ", &nat_string(idx as u64));
            let tail = concat2(&nat_string(n as u64), " parameters)");
            let m = concat2(&concat2(&head, " out of range (statement has "), &tail);
            return Err(EngineError::misuse(m));
        }
        let ghost before = self@.params;
        let ghost vv = value@;
        self.params.set(idx - 1, value);
        assert(row_view(self.params@) =~= before.update(idx - 1, vv));
        Ok(())
    }

    /// Whether the statement ran.
    pub fn executed(&self) -> (r: bool)
        ensures
            r == (self@.result is Some),
    {
        self.result.is_some()
    }

    /// File what the statement gave; the cursor stands before the first row.
    pub fn fill(&mut self, rs: ResultSet)
        ensures
            final(self)@ == (StatementV {
                result: Some(rs@),
                row_idx: 0,
                cur: None,
                ..old(self)@
            }),
    {
        self.result = Some(rs);
        self.row_idx = 0;
        self.cur = None;
    }

    /// Move the cursor to the next row; whether there is one.
    pub fn step(&mut self) -> (r: bool)
        requires
            old(self)@.result is Some,
        ensures
            r == (old(self)@.row_idx < old(self)@.result->0.rows.len()),
            final(self)@ == (if r {
                StatementV {
                    cur: Some(old(self)@.row_idx),
                    row_idx: old(self)@.row_idx + 1,
                    ..old(self)@
                }
            } else {
                StatementV { cur: None, ..old(self)@ }
            }),
    {
        let n: usize = match &self.result {
            Some(rs) => {
                assert(rs@.rows.len() == rs.rows@.len());
                rs.rows.len()
            },
            None => 0,
        };
        if self.row_idx < n {
            self.cur = Some(self.row_idx);
            self.row_idx += 1;
            true
        } else {
            self.cur = None;
            false
        }
    }

    /// Back to before the first run; the parameters stay.
    pub fn reset(&mut self)
        ensures
            final(self)@ == (StatementV { result: None, row_idx: 0, cur: None, ..old(self)@ }),
    {
        self.result = None;
        self.row_idx = 0;
        self.cur = None;
    }

    pub fn column_count(&self) -> (r: usize)
        ensures
            r == (match self@.result {
                Some(rs) => rs.columns.len(),
                None => 0,
            }),
    {
        match &self.result {
            Some(rs) => {
                assert(rs@.columns.len() == rs.columns@.len());
                rs.columns.len()
            },
            None => 0,
        }
    }

    pub fn column_name(&self, col: usize) -> (r: Option<&str>)
        ensures
            match r {
                Some(s) => self@.result is Some && col < self@.result->0.columns.len() && s@
                    == self@.result->0.columns[col as int],
                None => self@.result is None || col >= self@.result->0.columns.len(),
            },
    {
        match &self.result {
            Some(rs) => {
                assert(rs@.columns.len() == rs.columns@.len());
                if col < rs.columns.len() {
                    assert(rs@.columns[col as int] == rs.columns@[col as int]@);
                    Some(rs.columns[col].as_str())
                } else {
                    None
                }
            },
            None => None,
        }
    }

    pub fn column_type(&self, col: usize) -> (r: Option<ColumnType>)
        ensures
            r == (match self@.result {
                Some(rs) => if col < rs.types.len() {
                    Some(rs.types[col as int])
                } else {
                    None
                },
                None => None,
            }),
    {
        match &self.result {
            Some(rs) => if col < rs.types.len() {
                Some(rs.types[col])
            } else {
                None
            },
            None => None,
        }
    }

    /// A value of the row under the cursor.
    pub fn column_value(&self, col: usize) -> (r: Option<&Value>)
        ensures
            ({
                let there = self@.result is Some && self@.cur is Some && self@.cur->0
                    < self@.result->0.rows.len() && col
                    < self@.result->0.rows[self@.cur->0 as int].len();
                match r {
                    Some(v) => there && v@
                        == self@.result->0.rows[self@.cur->0 as int][col as int],
                    None => !there,
                }
            }),
    {
        match (&self.result, self.cur) {
            (Some(rs), Some(n)) => {
                assert(rs@.rows.len() == rs.rows@.len());
                if n < rs.rows.len() {
                    assert(rs@.rows[n as int] == row_view(rs.rows@[n as int]@));
                    if col < rs.rows[n].len() {
                        return Some(&rs.rows[n][col]);
                    }
                }
                None
            },
            _ => None,
        }
    }
}

// ---- encoded parameters -----------------------------------------------------------------------------

/// The value that a parameter's text stands for. The first letter tells its kind:
/// an integer, a real number, text, bytes in base64, `NULL`, or a vector. A number
/// that is none is zero, bytes that are none are empty, and a vector that is none
/// stays text. What has no such letter is text as a whole.
pub open spec fn param_value(s: Seq<char>, reals: RealsV) -> Out {
    if s.len() == 0 {
        Ok(ValueV::Text(s))
    } else {
        let rest = s.skip(1);
        if s[0] == 'i' {
            Ok(
                ValueV::Int(
                    match i64_of_text(trimmed(rest)) {
                        Some(n) => n,
                        None => 0,
                    },
                ),
            )
        } else if s[0] == 'f' {
            match number_of(reals, trimmed(rest)) {
                Err(e) => Err(e),
                Ok(o) => Ok(
                    ValueV::Real(
                        match o {
                            Some(b) => b,
                            None => 0,
                        },
                    ),
                ),
            }
        } else if s[0] == 's' {
            Ok(ValueV::Text(rest))
        } else if s[0] == 'v' {
            match vector_of_text(reals, rest) {
                Err(e) => Err(e),
                Ok(Some(x)) => Ok(ValueV::Vector(x)),
                Ok(None) => Ok(ValueV::Text(rest)),
            }
        } else if s[0] == 'b' {
            Ok(
                ValueV::Blob(
                    match base64_bytes(rest) {
                        Some(b) => b,
                        None => Seq::empty(),
                    },
                ),
            )
        } else if s[0] == 'n' {
            Ok(ValueV::Null)
        } else {
            Ok(ValueV::Text(s))
        }
    }
}

/// Read a parameter that comes as text.
pub fn decode_param(s: &str, reals: &Reals) -> (r: Result<Value, Stop>)
    ensures
        value_result(r) == param_value(s@, reals@),
{
    let cs = to_chars(s);
    if cs.len() == 0 {
        return Ok(Value::Text(owned(s)));
    }
    let rest = slice_chars(&cs, 1, cs.len());
    assert(rest@ =~= s@.skip(1));
    let kind: char = cs[0];
    if kind == 'i' {
        let t = trim_chars(&rest);
        let n: i64 = match parse_i64(&t) {
            Some(n) => n,
            None => 0,
        };
        Ok(Value::Int(n))
    } else if kind == 'f' {
        let t = trim_chars(&rest);
        let b: u64 = match reals.number(&t)? {
            Some(b) => b,
            None => 0,
        };
        Ok(Value::Real(b))
    } else if kind == 's' {
        Ok(Value::Text(from_chars(&rest)))
    } else if kind == 'v' {
        let text = from_chars(&rest);
        match parse_vector(reals, &text)? {
            Some(x) => Ok(Value::Vector(x)),
            None => Ok(Value::Text(text)),
        }
    } else if kind == 'b' {
        let bytes = match base64_decode(&from_chars(&rest)) {
            Some(b) => b,
            None => Vec::new(),
        };
        assert(base64_bytes(rest@) is None ==> bytes@ =~= Seq::<u8>::empty());
        Ok(Value::Blob(bytes))
    } else if kind == 'n' {
        Ok(Value::Null)
    } else {
        Ok(Value::Text(owned(s)))
    }
}

} // verus!
