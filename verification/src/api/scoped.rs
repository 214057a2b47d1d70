//! Errors of scoped transactions, and how a scope ends.

use crate::error::{self, Error};
use vstd::prelude::*;
use vstd::string::StringExecFns;

verus! {

/// Distinguishes database failures from an application's transaction error.
#[derive(Debug)]
pub enum TransactionError<E> {
    Storage(Error),
    Application(E),
}

impl<E> TransactionError<E> {
    /// An application's error.
    pub fn application(error: E) -> (r: Self)
        ensures
            r == TransactionError::Application(error),
    {
        TransactionError::Application(error)
    }

    /// The database failure, if it is one.
    pub fn storage(&self) -> (r: Option<&Error>)
        ensures
            match *self {
                TransactionError::Storage(error) => r == Some(&error),
                TransactionError::Application(_) => r is None,
            },
    {
        match self {
            TransactionError::Storage(error) => Some(error),
            TransactionError::Application(_) => None,
        }
    }

    /// The application's error, if it is one.
    pub fn application_ref(&self) -> (r: Option<&E>)
        ensures
            match *self {
                TransactionError::Storage(_) => r is None,
                TransactionError::Application(error) => r == Some(&error),
            },
    {
        match self {
            TransactionError::Storage(_) => None,
            TransactionError::Application(error) => Some(error),
        }
    }

    /// The error in words; `application` is the application's error in words,
    /// if it is one.
    pub fn message(&self, application: &str) -> (r: String)
        ensures
            r@ == match *self {
                TransactionError::Storage(error) => "transaction storage error: "@
                    + error::message_of(error),
                TransactionError::Application(_) => "transaction application error: "@
                    + application@,
            },
    {
        match self {
            TransactionError::Storage(error) => {
                let mut r: String = String::from_str("transaction storage error: ");
                r.append(error.message().as_str());
                r
            },
            TransactionError::Application(_) => {
                let mut r: String = String::from_str("transaction application error: ");
                r.append(application);
                r
            },
        }
    }
}

impl<E> From<Error> for TransactionError<E> {
    fn from(value: Error) -> (r: Self) {
        TransactionError::Storage(value)
    }
}

impl<E> vstd::std_specs::convert::FromSpecImpl<Error> for TransactionError<E> {
    open spec fn obeys_from_spec() -> bool {
        true
    }

    open spec fn from_spec(value: Error) -> Self {
        TransactionError::Storage(value)
    }
}

/// How a scoped write ends.
#[derive(Debug)]
pub enum ScopeEnd<T, E> {
    /// Its transaction is committed, which decides whether the value counts.
    Commit(T),
    /// Its transaction is rolled back.
    Rollback(TransactionError<E>),
}

/// Decides how a scoped write ends, by what its operation returned.
pub fn end_scope<T, E>(outcome: Result<T, TransactionError<E>>) -> (r: ScopeEnd<T, E>)
    ensures
        r == match outcome {
            Ok(value) => ScopeEnd::Commit(value),
            Err(error) => ScopeEnd::Rollback(error),
        },
{
    match outcome {
        Ok(value) => ScopeEnd::Commit(value),
        Err(error) => ScopeEnd::Rollback(error),
    }
}

/// What a scoped write returns once its transaction was committed, or could
/// not be.
pub fn conclude<T, E>(value: T, committed: Result<(), Error>) -> (r: Result<
    T,
    TransactionError<E>,
>)
    ensures
        r == match committed {
            Ok(_) => Ok(value),
            Err(error) => Err(TransactionError::<E>::Storage(error)),
        },
{
    match committed {
        Ok(_) => Ok(value),
        Err(error) => Err(TransactionError::Storage(error)),
    }
}

} // verus!
