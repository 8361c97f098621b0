//! Rollback-then-fail control flow for transactional call sites.
//!
//! A multi-step transactional operation must guarantee that any failing
//! step — including a mutation that matched no record — rolls the
//! transaction back before the operation returns its failure envelope.
//! The helpers here decide and perform that: they inspect a step's
//! outcome, roll back when it failed, and hand the caller either the value
//! to go on with or the failure envelope to return. A failure of the
//! rollback itself is infrastructure trouble, not business failure, and is
//! propagated as a hard error instead of being folded into an envelope.
use vstd::prelude::*;

use crate::resp::ApiResp;
use crate::resp::ErrorInfo;

verus! {

/// A transaction handle that can be rolled back; rolling back may itself
/// fail (for instance when the connection is lost).
pub trait Rollback {
    /// The error produced when the rollback itself fails.
    type RollbackError;

    /// Rolls the transaction back.
    fn rollback(&mut self) -> Result<(), Self::RollbackError>;
}

/// What a transactional call site does next: go on with the step's value,
/// or return the failure envelope (the transaction is already rolled back).
#[derive(Debug, PartialEq)]
pub enum GuardFlow<T> {
    /// The step succeeded; continue with its value.
    Proceed(T),
    /// The step failed and the transaction was rolled back; return this
    /// failure envelope from the enclosing operation.
    Abort(ApiResp),
}

/// Rolls back and short-circuits when a step failed.
///
/// On `Ok`, hands the value through untouched and does not roll back. On
/// `Err`, rolls the transaction back and, once that completed, yields the
/// failure envelope built from `code` and the error's description; when
/// the rollback itself fails, its error is passed upward instead.
pub fn rollback<T, E: ErrorInfo, Tx: Rollback>(resp: Result<T, E>, tx: &mut Tx, code: i32) -> (r:
    Result<GuardFlow<T>, Tx::RollbackError>)
    ensures
        resp matches Ok(t) ==> (r matches Ok(f) && f == GuardFlow::Proceed(t)),
        resp matches Err(ref e) ==> (r matches Err(_) || (r matches Ok(f) && f matches
            GuardFlow::Abort(env) && env.success == false && env.code == code && env.message@
            == e.spec_description() && env.data matches Option::None)),
{
    match resp {
        Result::Ok(t) => Result::Ok(GuardFlow::Proceed(t)),
        Result::Err(e) => {
            match tx.rollback() {
                Result::Ok(()) => Result::Ok(
                    GuardFlow::Abort(ApiResp::error(code, e.description())),
                ),
                Result::Err(re) => Result::Err(re),
            }
        },
    }
}

/// Rolls back and short-circuits when a mutation failed or matched nothing.
///
/// The outcome carries the mutation's affected-row count. On an error it
/// behaves exactly like [`rollback`]; on success with zero affected rows it
/// rolls back and yields the failure envelope with `code` and the message
/// `no matching record`; otherwise the count is handed through untouched.
pub fn rollback_for_no_match<E: ErrorInfo, Tx: Rollback>(
    resp: Result<u64, E>,
    tx: &mut Tx,
    code: i32,
) -> (r: Result<GuardFlow<u64>, Tx::RollbackError>)
    ensures
        resp matches Ok(n) ==> (n > 0 ==> (r matches Ok(f) && f == GuardFlow::Proceed(n))),
        resp matches Ok(n) ==> (n == 0 ==> (r matches Err(_) || (r matches Ok(f) && f matches
            GuardFlow::Abort(env) && env.success == false && env.code == code && env.message@
            == "no matching record"@ && env.data matches Option::None))),
        resp matches Err(ref e) ==> (r matches Err(_) || (r matches Ok(f) && f matches
            GuardFlow::Abort(env) && env.success == false && env.code == code && env.message@
            == e.spec_description() && env.data matches Option::None)),
{
    match resp {
        Result::Ok(n) => {
            if n == 0 {
                match tx.rollback() {
                    Result::Ok(()) => Result::Ok(
                        GuardFlow::Abort(
                            ApiResp::error(code, String::from_str("no matching record")),
                        ),
                    ),
                    Result::Err(re) => Result::Err(re),
                }
            } else {
                Result::Ok(GuardFlow::Proceed(n))
            }
        },
        Result::Err(e) => {
            match tx.rollback() {
                Result::Ok(()) => Result::Ok(
                    GuardFlow::Abort(ApiResp::error(code, e.description())),
                ),
                Result::Err(re) => Result::Err(re),
            }
        },
    }
}

} // verus!
