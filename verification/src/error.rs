//! Why a request was refused.
use crate::db::{Fault, StorageError};
use crate::models::Text;
use crate::text::{cat3, occurs, stands_at};
use vstd::prelude::*;

verus! {

/// Why a request was refused.
#[derive(Clone, PartialEq, Eq, Debug)]
pub enum StintError<S = String> {
    /// The store refused.
    Storage(StorageError<S>),
    /// No project has this name.
    ProjectNotFound(S),
    /// The project with this name is archived.
    ProjectArchived(S),
    /// A timer is running for the project with this name.
    TimerAlreadyRunning(S),
    /// No timer is running.
    NoRunningTimer,
    /// A point in time would lie outside the supported years.
    TimeOutOfRange,
}

/// A refusal in contracts.
pub type Refusal = StintError<Text>;

impl View for StintError {
    type V = Refusal;

    open spec fn view(&self) -> Refusal {
        match *self {
            StintError::Storage(e) => StintError::Storage(e@),
            StintError::ProjectNotFound(s) => StintError::ProjectNotFound(s@),
            StintError::ProjectArchived(s) => StintError::ProjectArchived(s@),
            StintError::TimerAlreadyRunning(s) => StintError::TimerAlreadyRunning(s@),
            StintError::NoRunningTimer => StintError::NoRunningTimer,
            StintError::TimeOutOfRange => StintError::TimeOutOfRange,
        }
    }
}


/// What is said of a refusal of the store.
pub open spec fn fault_text(e: Fault) -> Text {
    match e {
        StorageError::DuplicateProjectName(s) => "project '"@ + s + "' already exists"@,
        StorageError::ProjectNotFound(s) => "project not found: "@ + s,
        StorageError::EntryNotFound(s) => "entry not found: "@ + s,
        StorageError::SessionNotFound(s) => "session not found: "@ + s,
        StorageError::Constraint => "constraint violation"@,
        StorageError::InvalidTimestamp => "invalid timestamp in the database"@,
    }
}

/// What is said of a refusal.
pub open spec fn refusal_text(e: Refusal) -> Text {
    match e {
        StintError::Storage(x) => fault_text(x),
        StintError::ProjectNotFound(s) => "project '"@ + s + "' not found"@,
        StintError::ProjectArchived(s) => "project '"@ + s + "' is archived"@,
        StintError::TimerAlreadyRunning(s) => "timer already running for '"@ + s + "'"@,
        StintError::NoRunningTimer => "no timer running"@,
        StintError::TimeOutOfRange => "time out of range"@,
    }
}

fn join2(a: &str, b: &str) -> (r: String)
    ensures
        r@ == a@ + b@,
{
    let mut r = a.to_owned();
    r.append(b);
    r
}

impl StorageError {
    /// What is said of the refusal.
    pub fn message(&self) -> (r: String)
        ensures
            r@ == fault_text(self@),
    {
        match self {
            StorageError::DuplicateProjectName(s) => cat3(
                "project '",
                s.as_str(),
                "' already exists",
            ),
            StorageError::ProjectNotFound(s) => join2("project not found: ", s.as_str()),
            StorageError::EntryNotFound(s) => join2("entry not found: ", s.as_str()),
            StorageError::SessionNotFound(s) => join2("session not found: ", s.as_str()),
            StorageError::Constraint => "constraint violation".to_owned(),
            StorageError::InvalidTimestamp => "invalid timestamp in the database".to_owned(),
        }
    }
}

impl StintError {
    /// What is said of the refusal.
    pub fn message(&self) -> (r: String)
        ensures
            r@ == refusal_text(self@),
    {
        match self {
            StintError::Storage(e) => e.message(),
            StintError::ProjectNotFound(s) => cat3("project '", s.as_str(), "' not found"),
            StintError::ProjectArchived(s) => cat3("project '", s.as_str(), "' is archived"),
            StintError::TimerAlreadyRunning(s) => cat3(
                "timer already running for '",
                s.as_str(),
                "'",
            ),
            StintError::NoRunningTimer => "no timer running".to_owned(),
            StintError::TimeOutOfRange => "time out of range".to_owned(),
        }
    }
}

/// A refusal that is about a project, an entry or a session names it.
pub proof fn law_refusal_names(s: Text)
    ensures
        occurs(refusal_text(StintError::ProjectNotFound(s)), s),
        occurs(refusal_text(StintError::ProjectArchived(s)), s),
        occurs(refusal_text(StintError::TimerAlreadyRunning(s)), s),
        occurs(fault_text(StorageError::DuplicateProjectName(s)), s),
        occurs(fault_text(StorageError::ProjectNotFound(s)), s),
        occurs(fault_text(StorageError::EntryNotFound(s)), s),
        occurs(fault_text(StorageError::SessionNotFound(s)), s),
{
    let none = Seq::<char>::empty();
    lemma_occurs("project '"@, s, "' not found"@);
    lemma_occurs("project '"@, s, "' is archived"@);
    lemma_occurs("timer already running for '"@, s, "'"@);
    lemma_occurs("project '"@, s, "' already exists"@);
    lemma_occurs("project not found: "@, s, none);
    lemma_occurs("entry not found: "@, s, none);
    lemma_occurs("session not found: "@, s, none);
    assert("project not found: "@ + s + none =~= "project not found: "@ + s);
    assert("entry not found: "@ + s + none =~= "entry not found: "@ + s);
    assert("session not found: "@ + s + none =~= "session not found: "@ + s);
}

proof fn lemma_occurs(a: Text, s: Text, b: Text)
    ensures
        occurs(a + s + b, s),
{
    let t = a + s + b;
    assert(t.subrange(a.len() as int, a.len() + s.len() as int) =~= s);
    assert(stands_at(t, s, a.len() as int));
}

} // verus!
