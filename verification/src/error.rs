//! The engine's error type and its status codes.
use vstd::prelude::*;


verus! {

/// Outcome classes of an engine call. `code` gives the number each one has at
/// the C boundary.
#[derive(Clone, Copy, Debug, PartialEq, Eq, Structural)]
pub enum EngineStatus {
    /// The call succeeded.
    Success,
    /// Parse, plan or type error.
    ErrSql,
    /// Unique, foreign-key or check violation.
    ErrConstraint,
    /// Serialization or write conflict; a retry may succeed.
    ErrConflict,
    /// Storage backend fault.
    ErrStorage,
    /// Illegal transaction state transition.
    ErrTxn,
    /// Bad argument or handle.
    ErrMisuse,
    /// A bug in the engine.
    ErrInternal,
}

impl EngineStatus {
    pub open spec fn spec_code(self) -> i32 {
        match self {
            EngineStatus::Success => 0,
            EngineStatus::ErrSql => 1,
            EngineStatus::ErrConstraint => 2,
            EngineStatus::ErrConflict => 3,
            EngineStatus::ErrStorage => 4,
            EngineStatus::ErrTxn => 5,
            EngineStatus::ErrMisuse => 6,
            EngineStatus::ErrInternal => 7,
        }
    }

    /// The stable number of this status.
    pub fn code(self) -> (r: i32)
        ensures
            r == self.spec_code(),
    {
        match self {
            EngineStatus::Success => 0,
            EngineStatus::ErrSql => 1,
            EngineStatus::ErrConstraint => 2,
            EngineStatus::ErrConflict => 3,
            EngineStatus::ErrStorage => 4,
            EngineStatus::ErrTxn => 5,
            EngineStatus::ErrMisuse => 6,
            EngineStatus::ErrInternal => 7,
        }
    }
}

/// An engine error: its class and a message for people.
#[derive(Debug)]
pub struct EngineError {
    pub status: EngineStatus,
    pub message: String,
}

/// What an `EngineError` says.
pub struct ErrorV {
    pub status: EngineStatus,
    pub message: Seq<char>,
}

impl View for EngineError {
    type V = ErrorV;

    open spec fn view(&self) -> ErrorV {
        ErrorV { status: self.status, message: self.message@ }
    }
}

pub open spec fn err(status: EngineStatus, message: Seq<char>) -> ErrorV {
    ErrorV { status, message }
}

pub open spec fn sql_err(message: Seq<char>) -> ErrorV {
    err(EngineStatus::ErrSql, message)
}

pub open spec fn constraint_err(message: Seq<char>) -> ErrorV {
    err(EngineStatus::ErrConstraint, message)
}

pub open spec fn txn_err(message: Seq<char>) -> ErrorV {
    err(EngineStatus::ErrTxn, message)
}

pub open spec fn internal_err(message: Seq<char>) -> ErrorV {
    err(EngineStatus::ErrInternal, message)
}

impl EngineError {
    pub fn new(status: EngineStatus, message: String) -> (e: EngineError)
        ensures
            e@ == err(status, message@),
    {
        EngineError { status, message }
    }

    pub fn sql(msg: String) -> (e: EngineError)
        ensures
            e@ == sql_err(msg@),
    {
        EngineError::new(EngineStatus::ErrSql, msg)
    }

    pub fn constraint(msg: String) -> (e: EngineError)
        ensures
            e@ == constraint_err(msg@),
    {
        EngineError::new(EngineStatus::ErrConstraint, msg)
    }

    pub fn txn(msg: String) -> (e: EngineError)
        ensures
            e@ == err(EngineStatus::ErrTxn, msg@),
    {
        EngineError::new(EngineStatus::ErrTxn, msg)
    }

    pub fn misuse(msg: String) -> (e: EngineError)
        ensures
            e@ == err(EngineStatus::ErrMisuse, msg@),
    {
        EngineError::new(EngineStatus::ErrMisuse, msg)
    }

    pub fn internal(msg: String) -> (e: EngineError)
        ensures
            e@ == err(EngineStatus::ErrInternal, msg@),
    {
        EngineError::new(EngineStatus::ErrInternal, msg)
    }
}

impl Clone for EngineError {
    fn clone(&self) -> (r: EngineError)
        ensures
            r@ == self@,
    {
        EngineError { status: self.status, message: self.message.clone() }
    }
}

/// The storage faults that the engine tells apart.
#[derive(Clone, Copy, Debug, PartialEq, Eq, Structural)]
pub enum StorageFault {
    /// A newer writer has taken over.
    Fenced,
    /// Another writer holds the log.
    Contended,
    /// The request itself was invalid.
    Invalid,
    /// Any other backend fault.
    Other,
}

pub open spec fn fault_status(f: StorageFault) -> EngineStatus {
    match f {
        StorageFault::Fenced | StorageFault::Contended => EngineStatus::ErrConflict,
        StorageFault::Invalid => EngineStatus::ErrMisuse,
        StorageFault::Other => EngineStatus::ErrStorage,
    }
}

impl EngineError {
    /// The engine error for a storage fault with its rendered message.
    pub fn from_storage(fault: StorageFault, message: String) -> (e: EngineError)
        ensures
            e@ == err(fault_status(fault), message@),
    {
        let status = match fault {
            StorageFault::Fenced | StorageFault::Contended => EngineStatus::ErrConflict,
            StorageFault::Invalid => EngineStatus::ErrMisuse,
            StorageFault::Other => EngineStatus::ErrStorage,
        };
        EngineError::new(status, message)
    }
}

} // verus!
